use label_tracker::api::{landed, Channel, LandedError, LandedIn};
use label_tracker::store::{
    Branch, Db, ForPrError, GitCommit, Landing, LandingInsertError, Pr, PrNumber,
};

#[test]
fn pr_upsert_overwrites_commit() {
    let mut db = Db::new();
    Pr { number: PrNumber(1), commit: None }.insert(&mut db);
    Pr { number: PrNumber(1), commit: Some(GitCommit("abc".to_string())) }.insert(&mut db);
    let all = Pr::all(&db);
    assert_eq!(all.len(), 1);
    assert_eq!(all[0], Pr { number: PrNumber(1), commit: Some(GitCommit("abc".to_string())) });
}

#[test]
fn bulk_insert_keeps_all_rows() {
    let mut db = Db::new();
    Pr::bulk_insert(
        &mut db,
        vec![
            Pr { number: PrNumber(1), commit: Some(GitCommit("c1".to_string())) },
            Pr { number: PrNumber(2), commit: Some(GitCommit("c2".to_string())) },
            Pr { number: PrNumber(3), commit: None },
        ],
    );
    let mut prs = Pr::all(&db);
    prs.sort();
    assert_eq!(
        prs,
        vec![
            Pr { number: PrNumber(1), commit: Some(GitCommit("c1".to_string())) },
            Pr { number: PrNumber(2), commit: Some(GitCommit("c2".to_string())) },
            Pr { number: PrNumber(3), commit: None },
        ]
    );
}

#[test]
fn for_commit_finds_the_row() {
    let mut db = Db::new();
    Pr { number: PrNumber(7), commit: Some(GitCommit("feed".to_string())) }.insert(&mut db);
    let hit = Pr::for_commit(&db, &GitCommit("feed".to_string()));
    assert_eq!(hit, Some(Pr { number: PrNumber(7), commit: Some(GitCommit("feed".to_string())) }));
    assert_eq!(Pr::for_commit(&db, &GitCommit("beef".to_string())), None);
}

#[test]
fn branch_get_or_insert_is_idempotent_and_serial() {
    let mut db = Db::new();
    let master = Branch::get_or_insert(&mut db, "master");
    let chan = Branch::get_or_insert(&mut db, "channel1");
    let master_again = Branch::get_or_insert(&mut db, "master");
    assert_eq!(master.id(), master_again.id());
    assert_eq!(master.id().0, 1);
    assert_eq!(chan.id().0, 2);
    assert_eq!(Branch::all(&db).len(), 2);
    assert_eq!(Branch::all(&db)[0].name(), "master");
}

#[test]
fn duplicate_landing_is_refused() {
    let mut db = Db::new();
    let b = Branch::get_or_insert(&mut db, "master");
    let l = Landing { github_pr: PrNumber(1), branch_id: b.id() };
    assert_eq!(l.insert(&mut db), Ok(()));
    assert_eq!(l.insert(&mut db), Err(LandingInsertError::Duplicate));
    assert_eq!(Landing::all(&db).len(), 1);
}

#[test]
fn landing_requires_known_branch() {
    let mut db = Db::new();
    let l = Landing { github_pr: PrNumber(1), branch_id: label_tracker::store::BranchId(3) };
    assert_eq!(l.insert(&mut db), Err(LandingInsertError::UnknownBranch));
}

#[test]
fn pr_not_found() {
    // A lookup for an unknown pull request is refused, distinctly from a
    // known pull request with no landings.
    let db = Db::new();
    let r = landed(&db, 2134);
    assert_eq!(r, Err(LandedError::ForPr(ForPrError::PrNotFound)));
}

#[test]
fn pr_not_landed() {
    let mut db = Db::new();
    Pr {
        number: PrNumber::try_from(123).unwrap(),
        commit: Some(GitCommit("deadbeef".to_string())),
    }
    .insert(&mut db);
    let r = landed(&db, 123);
    assert_eq!(r, Ok(LandedIn { channels: vec![] }));
}

#[test]
fn pr_landed() {
    let mut db = Db::new();
    Pr { number: PrNumber::try_from(2134).unwrap(), commit: Some(GitCommit("c".to_string())) }
        .insert(&mut db);
    let b = Branch::get_or_insert(&mut db, "nixos-unstable");
    Landing { github_pr: PrNumber::try_from(2134).unwrap(), branch_id: b.id() }
        .insert(&mut db)
        .unwrap();
    let r = landed(&db, 2134);
    assert_eq!(
        r,
        Ok(LandedIn { channels: vec![Channel("nixos-unstable".to_owned())] })
    );
}

#[test]
fn pr_landed_in_master() {
    let mut db = Db::new();
    Pr { number: PrNumber::try_from(2134).unwrap(), commit: Some(GitCommit("c".to_string())) }
        .insert(&mut db);
    let b = Branch::get_or_insert(&mut db, "nixos-unstable");
    Landing { github_pr: PrNumber::try_from(2134).unwrap(), branch_id: b.id() }
        .insert(&mut db)
        .unwrap();
    assert_eq!(
        landed(&db, 2134),
        Ok(LandedIn { channels: vec![Channel("nixos-unstable".to_owned())] })
    );
}

#[test]
fn main_pr_not_found() {
    let db = Db::new();
    assert_eq!(landed(&db, 2134), Err(LandedError::ForPr(ForPrError::PrNotFound)));
}

#[test]
fn number_too_large_is_refused() {
    let db = Db::new();
    assert_eq!(landed(&db, 3_000_000_000), Err(LandedError::PrNumberTooLarge));
}
