use split_naira::{
    is_valid_split, split_balance, Collaborator, SplitError, SplitNairaContract,
};

fn collabs(addresses: &[&str], bps: &[u32]) -> Vec<Collaborator> {
    addresses
        .iter()
        .zip(bps.iter())
        .map(|(a, b)| Collaborator { address: a.to_string(), alias: String::new(), basis_points: *b })
        .collect()
}

fn two_party_contract() -> SplitNairaContract {
    let mut c = SplitNairaContract::new();
    let r = c.create_project(
        "owner".to_string(),
        "p".to_string(),
        "P".to_string(),
        "music".to_string(),
        "CTOKEN".to_string(),
        collabs(&["alice", "bob"], &[5000, 5000]),
    );
    assert_eq!(r, Ok(()));
    c
}

#[test]
fn validate_reports_zero_share() {
    let r = SplitNairaContract::validate_collaborators(&collabs(&["a", "b"], &[0, 10000]));
    assert_eq!(r, Err(SplitError::ZeroShare));
}

#[test]
fn validate_first_flaw_decides() {
    // The duplicate at position 0 comes before the zero share at position 2.
    let r = SplitNairaContract::validate_collaborators(&collabs(&["a", "b", "a"], &[5000, 5000, 0]));
    assert_eq!(r, Err(SplitError::DuplicateCollaborator));
    // A zero share at position 0 comes first even when also duplicated.
    let r = SplitNairaContract::validate_collaborators(&collabs(&["a", "a"], &[0, 10000]));
    assert_eq!(r, Err(SplitError::ZeroShare));
}

#[test]
fn validate_rejects_over_full_split() {
    let r = SplitNairaContract::validate_collaborators(&collabs(&["a", "b"], &[6000, 6000]));
    assert_eq!(r, Err(SplitError::InvalidSplit));
}

#[test]
fn validate_accepts_exact_split() {
    let r = SplitNairaContract::validate_collaborators(&collabs(&["a", "b", "c"], &[3333, 3333, 3334]));
    assert_eq!(r, Ok(()));
    assert!(is_valid_split(&collabs(&["a", "b", "c"], &[3333, 3333, 3334])));
    assert!(!is_valid_split(&collabs(&["a"], &[10000])));
    assert!(!is_valid_split(&collabs(&["a", "b"], &[u32::MAX, 1])));
}

#[test]
fn validation_of_huge_shares() {
    // Shares whose sum does not fit in u32 do not sum to 10000.
    let r = SplitNairaContract::validate_collaborators(&collabs(&["a", "b"], &[u32::MAX, 10001]));
    assert_eq!(r, Err(SplitError::InvalidSplit));
    let r = SplitNairaContract::validate_collaborators(&collabs(&["a", "b"], &[u32::MAX, 1]));
    assert_eq!(r, Err(SplitError::InvalidSplit));
    // A later flaw still wins over a sum that is too large.
    let r = SplitNairaContract::validate_collaborators(&collabs(&["a", "b", "a"], &[u32::MAX, 1, 1]));
    assert_eq!(r, Err(SplitError::DuplicateCollaborator));
    let r = SplitNairaContract::validate_collaborators(&collabs(&["a", "b", "c"], &[u32::MAX, u32::MAX, 0]));
    assert_eq!(r, Err(SplitError::ZeroShare));
}

#[test]
fn create_with_overflowing_shares_is_refused() {
    let mut c = SplitNairaContract::new();
    let r = c.create_project(
        "owner".to_string(),
        "wrap".to_string(),
        "Wrap".to_string(),
        "music".to_string(),
        "CTOKEN".to_string(),
        collabs(&["a", "b"], &[u32::MAX, 10001]),
    );
    assert_eq!(r, Err(SplitError::InvalidSplit));
    assert!(c.get_project("wrap".to_string()).is_none());
    assert_eq!(c.get_project_count(), 0);
}

#[test]
fn split_balance_exact_values() {
    let cs = collabs(&["a", "b", "c"], &[3333, 3333, 3334]);
    assert_eq!(split_balance(10, &cs), vec![3, 3, 4]);
    assert_eq!(split_balance(1_000_000, &cs), vec![333_300, 333_300, 333_400]);
    let cs = collabs(&["a", "b"], &[5000, 5000]);
    assert_eq!(split_balance(1, &cs), vec![0, 1]);
    assert_eq!(split_balance(7, &cs), vec![3, 4]);
}

#[test]
fn distribute_gives_remainder_to_last() {
    let mut c = SplitNairaContract::new();
    let r = c.create_project(
        "owner".to_string(),
        "p".to_string(),
        "P".to_string(),
        "music".to_string(),
        "CTOKEN".to_string(),
        collabs(&["a", "b", "c"], &[3333, 3333, 3334]),
    );
    assert_eq!(r, Ok(()));
    assert_eq!(c.deposit("p".to_string(), 10), Ok(()));
    let payouts = c.distribute("p".to_string()).unwrap();
    let amounts: Vec<i128> = payouts.iter().map(|p| p.amount).collect();
    assert_eq!(amounts, vec![3, 3, 4]);
    assert_eq!(c.get_balance("p".to_string()), Ok(0));
    assert_eq!(c.get_claimed("p".to_string(), "c".to_string()), 4);
}

#[test]
fn distribute_skips_zero_payouts() {
    let mut c = two_party_contract();
    assert_eq!(c.deposit("p".to_string(), 1), Ok(()));
    let payouts = c.distribute("p".to_string()).unwrap();
    assert_eq!(payouts.len(), 1);
    assert_eq!(payouts[0].address, "bob");
    assert_eq!(payouts[0].amount, 1);
    assert_eq!(c.get_claimed("p".to_string(), "alice".to_string()), 0);
    assert_eq!(c.get_claimed("p".to_string(), "bob".to_string()), 1);
}

#[test]
fn claims_accumulate_over_rounds() {
    let mut c = two_party_contract();
    assert_eq!(c.deposit("p".to_string(), 100), Ok(()));
    assert!(c.distribute("p".to_string()).is_ok());
    assert_eq!(c.deposit("p".to_string(), 40), Ok(()));
    assert!(c.distribute("p".to_string()).is_ok());
    assert_eq!(c.get_claimed("p".to_string(), "alice".to_string()), 70);
    assert_eq!(c.get_claimed("p".to_string(), "bob".to_string()), 70);
    assert_eq!(c.get_claimed("other".to_string(), "bob".to_string()), 0);
}

#[test]
fn deposit_errors() {
    let mut c = two_party_contract();
    assert_eq!(c.deposit("p".to_string(), 0), Err(SplitError::InvalidAmount));
    assert_eq!(c.deposit("p".to_string(), -5), Err(SplitError::InvalidAmount));
    assert_eq!(c.deposit("missing".to_string(), 5), Err(SplitError::NotFound));
    // A non-positive amount is refused before the project is looked up.
    assert_eq!(c.deposit("missing".to_string(), 0), Err(SplitError::InvalidAmount));
    assert_eq!(c.get_balance("p".to_string()), Ok(0));
}

#[test]
fn deposits_accumulate() {
    let mut c = two_party_contract();
    assert_eq!(c.deposit("p".to_string(), 5), Ok(()));
    assert_eq!(c.deposit("p".to_string(), 7), Ok(()));
    assert_eq!(c.get_balance("p".to_string()), Ok(12));
}

#[test]
fn owner_only_updates_and_locks() {
    let mut c = two_party_contract();
    let new_split = collabs(&["alice", "bob"], &[1000, 9000]);
    assert_eq!(
        c.update_collaborators("p".to_string(), "mallory".to_string(), new_split),
        Err(SplitError::Unauthorized)
    );
    assert_eq!(c.lock_project("p".to_string(), "mallory".to_string()), Err(SplitError::Unauthorized));
    assert_eq!(c.lock_project("missing".to_string(), "owner".to_string()), Err(SplitError::NotFound));
    assert_eq!(
        c.update_collaborators("missing".to_string(), "owner".to_string(), collabs(&["a", "b"], &[1, 9999])),
        Err(SplitError::NotFound)
    );
    assert_eq!(c.check_owner(&"p".to_string(), &"owner".to_string()), Ok(()));
    assert_eq!(c.check_owner(&"p".to_string(), &"mallory".to_string()), Err(SplitError::Unauthorized));
    assert_eq!(c.check_owner(&"q".to_string(), &"owner".to_string()), Err(SplitError::NotFound));
}

#[test]
fn lock_twice_fails_and_split_stays() {
    let mut c = two_party_contract();
    assert_eq!(c.lock_project("p".to_string(), "owner".to_string()), Ok(()));
    assert_eq!(c.lock_project("p".to_string(), "owner".to_string()), Err(SplitError::AlreadyLocked));
    let project = c.get_project("p".to_string()).unwrap();
    assert!(project.locked);
    assert_eq!(project.collaborators[0].basis_points, 5000);
}

#[test]
fn update_with_invalid_split_changes_nothing() {
    let mut c = two_party_contract();
    let bad = collabs(&["alice", "bob"], &[5000, 0]);
    assert_eq!(c.update_collaborators("p".to_string(), "owner".to_string(), bad), Err(SplitError::ZeroShare));
    let project = c.get_project("p".to_string()).unwrap();
    assert_eq!(project.collaborators[1].basis_points, 5000);
}

#[test]
fn queries_on_missing_project() {
    let mut c = SplitNairaContract::new();
    assert!(c.get_project("none".to_string()).is_none());
    assert_eq!(c.get_balance("none".to_string()), Err(SplitError::NotFound));
    assert_eq!(c.get_claimed("none".to_string(), "x".to_string()), 0);
    assert_eq!(c.get_project_count(), 0);
    assert_eq!(c.distribute("none".to_string()).err(), Some(SplitError::NotFound));
}

#[test]
fn loading_stored_state() {
    let mut source = two_party_contract();
    assert_eq!(source.deposit("p".to_string(), 30), Ok(()));
    let project = source.get_project("p".to_string()).unwrap();

    let mut c = SplitNairaContract::new();
    assert!(c.load_project(project.clone(), 30));
    assert!(!c.load_project(project.clone(), 30));
    assert!(c.load_claim("p".to_string(), "alice".to_string(), 11));
    assert!(!c.load_claim("p".to_string(), "alice".to_string(), 12));
    c.load_project_count(7);
    assert_eq!(c.get_project_count(), 7);
    assert_eq!(c.get_balance("p".to_string()), Ok(30));

    let payouts = c.distribute("p".to_string()).unwrap();
    assert_eq!(payouts.len(), 2);
    assert_eq!(c.get_claimed("p".to_string(), "alice".to_string()), 26);
    assert_eq!(c.get_claimed("p".to_string(), "bob".to_string()), 15);

    let mut bad = project.clone();
    bad.project_id = "q".to_string();
    bad.collaborators[1].basis_points = 1;
    let mut d = SplitNairaContract::new();
    assert!(!d.load_project(bad, 0));
    assert!(!d.load_project(project, -1));
}

#[test]
fn range_check_before_distribution() {
    let mut c = two_party_contract();
    assert!(c.can_distribute(&"p".to_string()));
    assert_eq!(c.deposit("p".to_string(), i128::MAX / 5000 + 1), Ok(()));
    assert!(!c.can_distribute(&"p".to_string()));
    assert!(c.can_distribute(&"missing".to_string()));

    let mut d = two_party_contract();
    assert_eq!(d.deposit("p".to_string(), 10), Ok(()));
    assert!(d.can_distribute(&"p".to_string()));
    let mut e = SplitNairaContract::new();
    let project = d.get_project("p".to_string()).unwrap();
    assert!(e.load_project(project, 10));
    assert!(e.load_claim("p".to_string(), "bob".to_string(), i128::MAX - 2));
    assert!(!e.can_distribute(&"p".to_string()));
}

#[test]
fn create_counts_projects() {
    let mut c = two_party_contract();
    let r = c.create_project(
        "owner".to_string(),
        "q".to_string(),
        "Q".to_string(),
        "book".to_string(),
        "CTOKEN".to_string(),
        collabs(&["x", "y"], &[2500, 7500]),
    );
    assert_eq!(r, Ok(()));
    assert_eq!(c.get_project_count(), 2);
    let bad = c.create_project(
        "owner".to_string(),
        "r".to_string(),
        "R".to_string(),
        "book".to_string(),
        "CTOKEN".to_string(),
        collabs(&["x", "y"], &[2500, 2500]),
    );
    assert_eq!(bad, Err(SplitError::InvalidSplit));
    assert_eq!(c.get_project_count(), 2);
    let q = c.get_project("q".to_string()).unwrap();
    assert_eq!(q.title, "Q");
    assert_eq!(q.project_type, "book");
    assert_eq!(q.owner, "owner");
    assert_eq!(q.token, "CTOKEN");
}

#[test]
fn funds_are_deposits_and_claims_match_total() {
    let mut c = SplitNairaContract::new();
    let r = c.create_project(
        "owner".to_string(),
        "p".to_string(),
        "P".to_string(),
        "music".to_string(),
        "CTOKEN".to_string(),
        collabs(&["a", "b", "c"], &[3333, 3333, 3334]),
    );
    assert_eq!(r, Ok(()));
    let mut deposited: i128 = 0;
    for amount in [10i128, 7, 1, 999] {
        assert_eq!(c.deposit("p".to_string(), amount), Ok(()));
        deposited += amount;
        let payouts = c.distribute("p".to_string()).unwrap();
        for p in payouts.iter() {
            assert!(p.amount > 0);
            assert!(["a", "b", "c"].contains(&p.address.as_str()));
        }
        let project = c.get_project("p".to_string()).unwrap();
        let balance = c.get_balance("p".to_string()).unwrap();
        assert_eq!(balance + project.total_distributed, deposited);
        let claims: i128 = ["a", "b", "c"]
            .iter()
            .map(|a| c.get_claimed("p".to_string(), a.to_string()))
            .sum();
        assert_eq!(claims, project.total_distributed);
    }
    assert_eq!(c.deposit("p".to_string(), 5), Ok(()));
    let project = c.get_project("p".to_string()).unwrap();
    assert_eq!(c.get_balance("p".to_string()).unwrap() + project.total_distributed, deposited + 5);
}

#[test]
fn validation_ignores_order() {
    let lists: [(&[&str], &[u32]); 3] = [
        (&["a", "b", "c"], &[2000, 3000, 5000]),
        (&["a", "b", "c"], &[2000, 3000, 4000]),
        (&["a", "b", "c"], &[u32::MAX, 3000, 4000]),
    ];
    for (addrs, bps) in lists.iter() {
        let forward = SplitNairaContract::validate_collaborators(&collabs(addrs, bps));
        let mut ra: Vec<&str> = addrs.to_vec();
        let mut rb: Vec<u32> = bps.to_vec();
        ra.reverse();
        rb.reverse();
        let backward = SplitNairaContract::validate_collaborators(&collabs(&ra, &rb));
        assert_eq!(forward, backward);
    }
}
