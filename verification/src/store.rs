//! The relational store model: pull requests keyed by number, branches keyed
//! by a serial identifier, and landings joining the two, with the point
//! lookup the query surface serves.
//!
//! The store itself is held in memory; persistence is the caller's business.
//! Numbers are unique among pull requests, branch identifiers are assigned
//! serially and branch names are unique, and a landing pair is recorded at
//! most once.

use vstd::prelude::*;

use crate::text::str_eq;

verus! {

/// A pull request number as the upstream assigns it.
#[derive(Clone, Copy, PartialEq, Eq, Structural, PartialOrd, Ord, Debug, Hash)]
pub struct PrNumber(pub i32);

/// A branch's serial identifier in the store.
#[derive(Clone, Copy, PartialEq, Eq, Structural, PartialOrd, Ord, Debug, Hash)]
pub struct BranchId(pub i32);

/// A git commit identifier.
#[derive(Clone, PartialEq, Eq, PartialOrd, Ord, Debug)]
pub struct GitCommit(pub String);

/// A pull request row: its number and, once merged, its merge commit.
#[derive(Clone, PartialEq, Eq, PartialOrd, Ord, Debug)]
pub struct Pr {
    pub number: PrNumber,
    pub commit: Option<GitCommit>,
}

/// A landing row: this pull request's merge commit is an ancestor of this
/// branch's tip.
#[derive(Clone, Copy, PartialEq, Eq, Structural, PartialOrd, Ord, Debug)]
pub struct Landing {
    pub github_pr: PrNumber,
    pub branch_id: BranchId,
}

/// A branch row: a serial identifier and the branch name.
#[derive(Clone, Debug)]
pub struct Branch {
    id: BranchId,
    name: String,
}

impl Branch {
    /// The serial identifier.
    pub closed spec fn spec_id(&self) -> BranchId {
        self.id
    }

    /// The name, as a character sequence.
    pub closed spec fn spec_name(&self) -> Seq<char> {
        self.name@
    }

    /// The serial identifier.
    pub fn id(&self) -> (r: BranchId)
        ensures
            r == self.spec_id(),
    {
        self.id
    }

    /// The branch name.
    pub fn name(&self) -> (r: &str)
        ensures
            r@ == self.spec_name(),
    {
        self.name.as_str()
    }
}

/// A pull request number that does not fit the store's signed representation.
#[derive(Clone, Copy, PartialEq, Eq, Structural, Debug)]
pub struct PrNumberTooLarge;

impl PrNumber {
    /// Accepts an upstream number exactly when it fits.
    pub fn try_from(value: u32) -> (r: Result<PrNumber, PrNumberTooLarge>)
        ensures
            value <= i32::MAX ==> r == Ok::<PrNumber, PrNumberTooLarge>(PrNumber(value as i32)),
            value > i32::MAX ==> r == Err::<PrNumber, PrNumberTooLarge>(PrNumberTooLarge),
    {
        if value <= 0x7fff_ffff {
            Ok(PrNumber(value as i32))
        } else {
            Err(PrNumberTooLarge)
        }
    }
}

/// Refusals of recording a landing: the pair is already recorded, or the
/// named branch is not stored.
#[derive(Clone, Copy, PartialEq, Eq, Structural, Debug)]
pub enum LandingInsertError {
    Duplicate,
    UnknownBranch,
}

/// Looking up landings of a pull request the store does not know.
#[derive(Clone, Copy, PartialEq, Eq, Structural, Debug)]
pub enum ForPrError {
    PrNotFound,
}

/// The in-memory store: pull requests, branches, landings.
pub struct Db {
    prs: Vec<Pr>,
    branches: Vec<Branch>,
    landings: Vec<Landing>,
}

impl Db {
    /// The pull request rows, in insertion order.
    pub closed spec fn prs_seq(&self) -> Seq<Pr> {
        self.prs@
    }

    /// The branch rows, in insertion order.
    pub closed spec fn branches_seq(&self) -> Seq<Branch> {
        self.branches@
    }

    /// The landing rows, in insertion order.
    pub closed spec fn landings_seq(&self) -> Seq<Landing> {
        self.landings@
    }

    /// Pull request numbers are unique; branch identifiers are serial (the
    /// row at position `i` has identifier `i + 1`) and branch names unique;
    /// a landing pair occurs at most once.
    pub open spec fn wf(&self) -> bool {
        &&& forall|i: int, j: int|
            0 <= i < j < self.prs_seq().len() ==> self.prs_seq()[i].number
                != self.prs_seq()[j].number
        &&& forall|i: int|
            0 <= i < self.branches_seq().len() ==> (#[trigger] self.branches_seq()[i].spec_id()).0
                == i + 1
        &&& forall|i: int, j: int|
            0 <= i < j < self.branches_seq().len() ==> self.branches_seq()[i].spec_name()
                != self.branches_seq()[j].spec_name()
        &&& forall|i: int, j: int|
            0 <= i < j < self.landings_seq().len() ==> self.landings_seq()[i]
                != self.landings_seq()[j]
        &&& forall|i: int|
            0 <= i < self.landings_seq().len() ==> 1 <= (#[trigger] self.landings_seq()[i]).branch_id.0
                <= self.branches_seq().len()
        &&& self.branches_seq().len() < i32::MAX
    }

    /// An empty store.
    pub fn new() -> (r: Db)
        ensures
            r.wf(),
            r.prs_seq() == Seq::<Pr>::empty(),
            r.branches_seq() == Seq::<Branch>::empty(),
            r.landings_seq() == Seq::<Landing>::empty(),
    {
        Db { prs: Vec::new(), branches: Vec::new(), landings: Vec::new() }
    }
}

/// The rows after one upsert: an existing row with the same number is
/// overwritten, otherwise the row is appended.
pub open spec fn upsert_row(s: Seq<Pr>, p: Pr) -> Seq<Pr> {
    if exists|i: int| 0 <= i < s.len() && (#[trigger] s[i]).number == p.number {
        s.update(choose|i: int| 0 <= i < s.len() && (#[trigger] s[i]).number == p.number, p)
    } else {
        s.push(p)
    }
}

/// The rows after upserting a whole list in order.
pub open spec fn upsert_rows(s: Seq<Pr>, ps: Seq<Pr>) -> Seq<Pr>
    decreases ps.len(),
{
    if ps.len() == 0 {
        s
    } else {
        upsert_rows(upsert_row(s, ps[0]), ps.drop_first())
    }
}

impl Pr {
    /// Stores this row, overwriting the commit of an existing row with the
    /// same number.
    pub fn insert(self, db: &mut Db)
        requires
            old(db).wf(),
        ensures
            final(db).wf(),
            final(db).branches_seq() == old(db).branches_seq(),
            final(db).landings_seq() == old(db).landings_seq(),
            final(db).prs_seq() == upsert_row(old(db).prs_seq(), self),
    {
        let mut i: usize = 0;
        while i < db.prs.len()
            invariant
                db.wf(),
                *db == *old(db),
                0 <= i <= db.prs_seq().len(),
                forall|k: int| 0 <= k < i ==> (#[trigger] db.prs_seq()[k]).number != self.number,
            decreases db.prs_seq().len() - i,
        {
            if db.prs[i].number.0 == self.number.0 {
                proof {
                    assert(db.prs_seq()[i as int].number == self.number);
                    let w = choose|w: int|
                        0 <= w < db.prs_seq().len() && (#[trigger] db.prs_seq()[w]).number
                            == self.number;
                    if w != i {
                        assert(db.prs_seq()[w].number != db.prs_seq()[i as int].number);
                    }
                }
                let ghost pre: Seq<Pr> = db.prs_seq();
                let slot = vstd::std_specs::vec::vec_index_mut(&mut db.prs, i);
                *slot = self;
                proof {
                    assert forall|a: int, b: int|
                        0 <= a < b < db.prs_seq().len() implies db.prs_seq()[a].number
                        != db.prs_seq()[b].number by {
                        assert(pre[a].number != pre[b].number);
                    }
                    assert forall|a: int, b: int|
                        0 <= a < b < db.landings_seq().len() implies db.landings_seq()[a]
                        != db.landings_seq()[b] by {
                        assert(old(db).landings_seq()[a] != old(db).landings_seq()[b]);
                    }
                    assert forall|a: int|
                        0 <= a < db.landings_seq().len() implies 1 <= (
                    #[trigger] db.landings_seq()[a]).branch_id.0 <= db.branches_seq().len() by {
                        assert(db.landings_seq()[a] == old(db).landings_seq()[a]);
                        assert(1 <= old(db).landings_seq()[a].branch_id.0 <= old(
                            db,
                        ).branches_seq().len());
                    }
                }
                return;
            }
            i = i + 1;
        }
        proof {
            if exists|w: int|
                0 <= w < db.prs_seq().len() && (#[trigger] db.prs_seq()[w]).number == self.number {
                let w = choose|w: int|
                    0 <= w < db.prs_seq().len() && (#[trigger] db.prs_seq()[w]).number
                        == self.number;
            }
        }
        db.prs.push(self);
    }

    /// Stores every row in order, each upserted by its number.
    pub fn bulk_insert(db: &mut Db, prs: Vec<Pr>)
        requires
            old(db).wf(),
        ensures
            final(db).wf(),
            final(db).branches_seq() == old(db).branches_seq(),
            final(db).landings_seq() == old(db).landings_seq(),
            final(db).prs_seq() == upsert_rows(old(db).prs_seq(), prs@),
    {
        let ghost orig: Seq<Pr> = prs@;
        let mut prs = prs;
        while prs.len() > 0
            invariant
                db.wf(),
                db.branches_seq() == old(db).branches_seq(),
                db.landings_seq() == old(db).landings_seq(),
                upsert_rows(old(db).prs_seq(), orig) == upsert_rows(db.prs_seq(), prs@),
            decreases prs@.len(),
        {
            let ghost rest: Seq<Pr> = prs@;
            let pr = prs.remove(0);
            proof {
                assert(pr == rest[0]);
                assert(prs@ =~= rest.drop_first());
            }
            pr.insert(db);
        }
        proof {
            assert(upsert_rows(db.prs_seq(), prs@) == db.prs_seq());
        }
    }

    /// Every stored pull request row, in storage order.
    pub fn all(db: &Db) -> (r: Vec<Pr>)
        ensures
            r@ == db.prs_seq(),
    {
        let mut r: Vec<Pr> = Vec::new();
        let mut i: usize = 0;
        while i < db.prs.len()
            invariant
                0 <= i <= db.prs_seq().len(),
                r@ == db.prs_seq().take(i as int),
            decreases db.prs_seq().len() - i,
        {
            r.push(db.prs[i].clone_row());
            proof {
                assert(r@ =~= db.prs_seq().take(i + 1));
            }
            i = i + 1;
        }
        proof {
            assert(db.prs_seq().take(db.prs_seq().len() as int) =~= db.prs_seq());
        }
        r
    }

    /// Copies a row; the copy equals the original.
    pub fn clone_row(&self) -> (r: Pr)
        ensures
            r == *self,
    {
        let commit = match &self.commit {
            Some(c) => Some(GitCommit(crate::string_set::clone_string(&c.0))),
            None => None,
        };
        Pr { number: PrNumber(self.number.0), commit }
    }

    /// The first stored row whose merge commit is `commit`, if any.
    pub fn for_commit(db: &Db, commit: &GitCommit) -> (r: Option<Pr>)
        ensures
            match r {
                Some(p) => exists|i: int|
                    0 <= i < db.prs_seq().len() && #[trigger] db.prs_seq()[i] == p && (
                    match p.commit {
                        Some(c) => c.0@ == commit.0@,
                        None => false,
                    }) && forall|k: int|
                        0 <= k < i ==> !pr_has_commit(#[trigger] db.prs_seq()[k], commit.0@),
                None => forall|i: int|
                    0 <= i < db.prs_seq().len() ==> !pr_has_commit(
                        #[trigger] db.prs_seq()[i],
                        commit.0@,
                    ),
            },
    {
        let mut i: usize = 0;
        while i < db.prs.len()
            invariant
                0 <= i <= db.prs_seq().len(),
                forall|k: int| 0 <= k < i ==> !pr_has_commit(#[trigger] db.prs_seq()[k], commit.0@),
            decreases db.prs_seq().len() - i,
        {
            let matches_commit = match &db.prs[i].commit {
                Some(c) => str_eq(c.0.as_str(), commit.0.as_str()),
                None => false,
            };
            if matches_commit {
                let p = db.prs[i].clone_row();
                proof {
                    assert(db.prs_seq()[i as int] == p);
                }
                return Some(p);
            }
            i = i + 1;
        }
        None
    }
}

/// The row's merge commit is `commit`.
pub open spec fn pr_has_commit(p: Pr, commit: Seq<char>) -> bool {
    match p.commit {
        Some(c) => c.0@ == commit,
        None => false,
    }
}

/// The branch row carries `name`.
pub open spec fn branch_named(b: Branch, name: Seq<char>) -> bool {
    b.spec_name() == name
}

impl Branch {
    /// The stored branch with this name, or a fresh row with the next serial
    /// identifier.
    pub fn get_or_insert(db: &mut Db, name: &str) -> (r: Branch)
        requires
            old(db).wf(),
            old(db).branches_seq().len() < i32::MAX - 1,
        ensures
            final(db).wf(),
            final(db).prs_seq() == old(db).prs_seq(),
            final(db).landings_seq() == old(db).landings_seq(),
            r.spec_name() == name@,
            (exists|i: int|
                0 <= i < old(db).branches_seq().len() && branch_named(
                    #[trigger] old(db).branches_seq()[i],
                    name@,
                )) ==> final(db).branches_seq() == old(db).branches_seq() && exists|i: int|
                0 <= i < old(db).branches_seq().len() && #[trigger] old(db).branches_seq()[i] == r,
            !(exists|i: int|
                0 <= i < old(db).branches_seq().len() && branch_named(
                    #[trigger] old(db).branches_seq()[i],
                    name@,
                )) ==> final(db).branches_seq() == old(db).branches_seq().push(r) && r.spec_id().0
                == old(db).branches_seq().len() + 1,
    {
        let mut i: usize = 0;
        while i < db.branches.len()
            invariant
                db.wf(),
                *db == *old(db),
                0 <= i <= db.branches_seq().len(),
                forall|k: int|
                    0 <= k < i ==> !branch_named(#[trigger] db.branches_seq()[k], name@),
            decreases db.branches_seq().len() - i,
        {
            if str_eq(db.branches[i].name.as_str(), name) {
                let r = Branch {
                    id: db.branches[i].id,
                    name: crate::string_set::clone_string(&db.branches[i].name),
                };
                proof {
                    assert(branch_named(db.branches_seq()[i as int], name@));
                    assert(db.branches_seq()[i as int] == r);
                }
                return r;
            }
            i = i + 1;
        }
        proof {
            if exists|w: int|
                0 <= w < db.branches_seq().len() && branch_named(
                    #[trigger] db.branches_seq()[w],
                    name@,
                ) {
                let w = choose|w: int|
                    0 <= w < db.branches_seq().len() && branch_named(
                        #[trigger] db.branches_seq()[w],
                        name@,
                    );
            }
        }
        let id = BranchId((db.branches.len() as i32) + 1);
        let nm = name.to_owned();
        let r = Branch { id, name: crate::string_set::clone_string(&nm) };
        let stored = Branch { id, name: nm };
        proof {
            assert(r == stored);
        }
        let ghost pre: Seq<Branch> = db.branches_seq();
        db.branches.push(stored);
        proof {
            assert(db.branches_seq().last() == r);
            assert forall|a: int, b: int|
                0 <= a < b < db.branches_seq().len() implies db.branches_seq()[a].spec_name()
                != db.branches_seq()[b].spec_name() by {
                if b < pre.len() {
                    assert(pre[a].spec_name() != pre[b].spec_name());
                } else {
                    assert(!branch_named(pre[a], name@));
                }
            }
            assert forall|a: int|
                0 <= a < db.branches_seq().len() implies (
            #[trigger] db.branches_seq()[a].spec_id()).0 == a + 1 by {
                if a < pre.len() {
                    assert(pre[a].spec_id().0 == a + 1);
                }
            }
            assert forall|a: int, b: int|
                0 <= a < b < db.landings_seq().len() implies db.landings_seq()[a]
                != db.landings_seq()[b] by {
                assert(old(db).landings_seq()[a] != old(db).landings_seq()[b]);
            }
            assert forall|a: int|
                0 <= a < db.landings_seq().len() implies 1 <= (
            #[trigger] db.landings_seq()[a]).branch_id.0 <= db.branches_seq().len() by {
                assert(db.landings_seq()[a] == old(db).landings_seq()[a]);
                assert(1 <= old(db).landings_seq()[a].branch_id.0 <= old(
                    db,
                ).branches_seq().len());
            }
            assert forall|a: int, b: int|
                0 <= a < b < db.prs_seq().len() implies db.prs_seq()[a].number
                != db.prs_seq()[b].number by {
                assert(old(db).prs_seq()[a].number != old(db).prs_seq()[b].number);
            }
        }
        r
    }

    /// Every stored branch row, in identifier order.
    pub fn all(db: &Db) -> (r: Vec<Branch>)
        ensures
            r@.len() == db.branches_seq().len(),
            forall|i: int| 0 <= i < r@.len() ==> #[trigger] r@[i] == db.branches_seq()[i],
    {
        let mut r: Vec<Branch> = Vec::new();
        let mut i: usize = 0;
        while i < db.branches.len()
            invariant
                0 <= i <= db.branches_seq().len(),
                r@.len() == i,
                forall|k: int| 0 <= k < i ==> #[trigger] r@[k] == db.branches_seq()[k],
            decreases db.branches_seq().len() - i,
        {
            let b = Branch {
                id: db.branches[i].id,
                name: crate::string_set::clone_string(&db.branches[i].name),
            };
            proof {
                assert(b == db.branches_seq()[i as int]);
            }
            r.push(b);
            i = i + 1;
        }
        r
    }
}

impl Landing {
    /// Records a landing.  The pair must name a stored branch and must not
    /// be recorded yet; each refusal says which condition failed.
    pub fn insert(self, db: &mut Db) -> (r: Result<(), LandingInsertError>)
        requires
            old(db).wf(),
        ensures
            final(db).wf(),
            final(db).prs_seq() == old(db).prs_seq(),
            final(db).branches_seq() == old(db).branches_seq(),
            match r {
                Ok(_) => !old(db).landings_seq().contains(self) && 1 <= self.branch_id.0 <= old(
                    db,
                ).branches_seq().len() && final(db).landings_seq() == old(
                    db,
                ).landings_seq().push(self),
                Err(e) => final(db).landings_seq() == old(db).landings_seq() && (if e
                    == LandingInsertError::UnknownBranch {
                    !(1 <= self.branch_id.0 <= old(db).branches_seq().len())
                } else {
                    old(db).landings_seq().contains(self)
                }),
            },
    {
        if self.branch_id.0 < 1 || (self.branch_id.0 as usize) > db.branches.len() {
            return Err(LandingInsertError::UnknownBranch);
        }
        let mut i: usize = 0;
        while i < db.landings.len()
            invariant
                db.wf(),
                *db == *old(db),
                0 <= i <= db.landings_seq().len(),
                forall|k: int| 0 <= k < i ==> #[trigger] db.landings_seq()[k] != self,
            decreases db.landings_seq().len() - i,
        {
            let l = db.landings[i];
            if l.github_pr.0 == self.github_pr.0 && l.branch_id.0 == self.branch_id.0 {
                proof {
                    assert(db.landings_seq()[i as int] == self);
                }
                return Err(LandingInsertError::Duplicate);
            }
            i = i + 1;
        }
        proof {
            if db.landings_seq().contains(self) {
                let w = choose|w: int|
                    0 <= w < db.landings_seq().len() && db.landings_seq()[w] == self;
            }
        }
        db.landings.push(self);
        Ok(())
    }

    /// Every stored landing row, in storage order.
    pub fn all(db: &Db) -> (r: Vec<Landing>)
        ensures
            r@ == db.landings_seq(),
    {
        let mut r: Vec<Landing> = Vec::new();
        let mut i: usize = 0;
        while i < db.landings.len()
            invariant
                0 <= i <= db.landings_seq().len(),
                r@ == db.landings_seq().take(i as int),
            decreases db.landings_seq().len() - i,
        {
            r.push(db.landings[i]);
            proof {
                assert(r@ =~= db.landings_seq().take(i + 1));
            }
            i = i + 1;
        }
        proof {
            assert(db.landings_seq().take(db.landings_seq().len() as int) =~= db.landings_seq());
        }
        r
    }

    /// The branches a known pull request has landed in, one per recorded
    /// landing, in landing order; a number the store does not know is
    /// refused, distinctly from a known one with no landings.
    pub fn for_pr(db: &Db, pr_num: PrNumber) -> (r: Result<Vec<Branch>, ForPrError>)
        requires
            db.wf(),
        ensures
            match r {
                Ok(branches) => (exists|i: int|
                    0 <= i < db.prs_seq().len() && (#[trigger] db.prs_seq()[i]).number == pr_num)
                    && branches@.len() == landings_of(db.landings_seq(), pr_num).len() && forall|
                    j: int,
                |
                    0 <= j < branches@.len() ==> #[trigger] branches@[j] == db.branches_seq()[
                        landings_of(db.landings_seq(), pr_num)[j].branch_id.0 - 1
                    ],
                Err(e) => e == ForPrError::PrNotFound && forall|i: int|
                    0 <= i < db.prs_seq().len() ==> (#[trigger] db.prs_seq()[i]).number != pr_num,
            },
    {
        let mut found = false;
        let mut i: usize = 0;
        while i < db.prs.len()
            invariant
                0 <= i <= db.prs_seq().len(),
                found == exists|k: int|
                    0 <= k < i && (#[trigger] db.prs_seq()[k]).number == pr_num,
            decreases db.prs_seq().len() - i,
        {
            if db.prs[i].number.0 == pr_num.0 {
                proof {
                    assert(db.prs_seq()[i as int].number == pr_num);
                }
                found = true;
            }
            i = i + 1;
        }
        if !found {
            return Err(ForPrError::PrNotFound);
        }
        let mut branches: Vec<Branch> = Vec::new();
        let mut j: usize = 0;
        while j < db.landings.len()
            invariant
                db.wf(),
                0 <= j <= db.landings_seq().len(),
                branches@.len() == landings_of(db.landings_seq().take(j as int), pr_num).len(),
                forall|q: int|
                    0 <= q < branches@.len() ==> #[trigger] branches@[q] == db.branches_seq()[
                        landings_of(db.landings_seq().take(j as int), pr_num)[q].branch_id.0 - 1
                    ],
            decreases db.landings_seq().len() - j,
        {
            let l = db.landings[j];
            proof {
                reveal(Seq::filter);
                assert(db.landings_seq().take(j + 1).drop_last() =~= db.landings_seq().take(
                    j as int,
                ));
                assert(db.landings_seq().take(j + 1).last() == db.landings_seq()[j as int]);
            }
            if l.github_pr.0 == pr_num.0 {
                proof {
                    assert(db.landings_seq()[j as int].github_pr == pr_num);
                    // Referential integrity: the identifier indexes a branch.
                    assert(1 <= db.landings_seq()[j as int].branch_id.0 <= db.branches_seq().len());
                }
                let idx = (l.branch_id.0 - 1) as usize;
                let b = Branch {
                    id: db.branches[idx].id,
                    name: crate::string_set::clone_string(&db.branches[idx].name),
                };
                proof {
                    assert(b == db.branches_seq()[idx as int]);
                    assert(b.spec_id().0 == idx + 1);
                }
                branches.push(b);
            }
            j = j + 1;
        }
        proof {
            assert(db.landings_seq().take(db.landings_seq().len() as int) =~= db.landings_seq());
        }
        Ok(branches)
    }
}

/// The landing rows of one pull request, in storage order.
pub open spec fn landings_of(landings: Seq<Landing>, pr_num: PrNumber) -> Seq<Landing> {
    landings.filter(|l: Landing| l.github_pr == pr_num)
}

} // verus!
