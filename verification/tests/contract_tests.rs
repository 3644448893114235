use split_naira::{Collaborator, Payout, SplitError, SplitNairaContract};

const TOKEN: &str = "CTOKEN";

fn make_collaborators(addresses: &[&str], bps: &[u32]) -> Vec<Collaborator> {
    let mut collabs = Vec::new();
    for (addr, bp) in addresses.iter().zip(bps.iter()) {
        collabs.push(Collaborator {
            address: addr.to_string(),
            alias: "Test User".to_string(),
            basis_points: *bp,
        });
    }
    collabs
}

fn create(
    contract: &mut SplitNairaContract,
    owner: &str,
    project_id: &str,
    title: &str,
    project_type: &str,
    collabs: Vec<Collaborator>,
) -> Result<(), SplitError> {
    contract.create_project(
        owner.to_string(),
        project_id.to_string(),
        title.to_string(),
        project_type.to_string(),
        TOKEN.to_string(),
        collabs,
    )
}

fn deposit_to_project(contract: &mut SplitNairaContract, project_id: &str, amount: i128) {
    assert_eq!(contract.deposit(project_id.to_string(), amount), Ok(()));
}

fn paid(payouts: &[Payout], address: &str) -> i128 {
    payouts.iter().filter(|p| p.address == address).map(|p| p.amount).sum()
}

// ============================================================
//  CREATION TESTS
// ============================================================

#[test]
fn test_create_project_success() {
    let mut contract = SplitNairaContract::new();
    let collabs = make_collaborators(&["alice", "bob"], &[6000u32, 4000u32]);

    assert_eq!(create(&mut contract, "owner", "afrobeats_vol3", "Afrobeats Vol. 3", "music", collabs), Ok(()));
    assert_eq!(contract.get_project_count(), 1);

    let project = contract.get_project("afrobeats_vol3".to_string()).unwrap();
    assert_eq!(project.collaborators.len(), 2);
    assert_eq!(project.locked, false);
    assert_eq!(project.total_distributed, 0);
    assert_eq!(project.distribution_round, 0);
    assert_eq!(contract.get_balance("afrobeats_vol3".to_string()), Ok(0));
}

#[test]
fn test_create_project_fails_invalid_split() {
    let mut contract = SplitNairaContract::new();
    // 60% + 30% = 90%: does not sum to 100%
    let collabs = make_collaborators(&["alice", "bob"], &[6000u32, 3000u32]);
    let result = create(&mut contract, "owner", "bad_split", "Bad Split Project", "music", collabs);
    assert_eq!(result, Err(SplitError::InvalidSplit));
}

#[test]
fn test_create_project_fails_too_few_collaborators() {
    let mut contract = SplitNairaContract::new();
    let collabs = make_collaborators(&["alice"], &[10000u32]);
    let result = create(&mut contract, "owner", "solo", "Solo Project", "art", collabs);
    assert_eq!(result, Err(SplitError::TooFewCollaborators));
}

#[test]
fn test_create_project_fails_duplicate_id() {
    let mut contract = SplitNairaContract::new();
    let collabs = make_collaborators(&["alice", "bob"], &[5000u32, 5000u32]);

    let first = create(&mut contract, "owner", "dup_test", "Duplicate Test", "film", collabs.clone());
    assert_eq!(first, Ok(()));

    let result = create(&mut contract, "owner", "dup_test", "Duplicate Test", "film", collabs);
    assert_eq!(result, Err(SplitError::ProjectExists));
}

#[test]
fn test_create_project_fails_duplicate_collaborator_address() {
    let mut contract = SplitNairaContract::new();
    let collabs = make_collaborators(&["alice", "alice"], &[5000u32, 5000u32]);
    let result = create(&mut contract, "owner", "dup_address", "Duplicate Address", "music", collabs);
    assert_eq!(result, Err(SplitError::DuplicateCollaborator));
}

// ============================================================
//  UPDATE + LOCK TESTS
// ============================================================

#[test]
fn test_update_collaborators_success_before_lock() {
    let mut contract = SplitNairaContract::new();
    let initial = make_collaborators(&["alice", "bob"], &[6000u32, 4000u32]);
    assert_eq!(create(&mut contract, "owner", "editable_split", "Editable Split", "music", initial), Ok(()));

    let updated = make_collaborators(&["alice", "bob", "carol"], &[5000u32, 3000u32, 2000u32]);
    assert_eq!(
        contract.update_collaborators("editable_split".to_string(), "owner".to_string(), updated),
        Ok(())
    );

    let project = contract.get_project("editable_split".to_string()).unwrap();
    assert_eq!(project.locked, false);
    assert_eq!(project.collaborators.len(), 3);
    assert_eq!(project.collaborators[0].address, "alice");
    assert_eq!(project.collaborators[0].basis_points, 5000u32);
    assert_eq!(project.collaborators[1].address, "bob");
    assert_eq!(project.collaborators[1].basis_points, 3000u32);
    assert_eq!(project.collaborators[2].address, "carol");
    assert_eq!(project.collaborators[2].basis_points, 2000u32);
}

#[test]
fn test_update_collaborators_fails_when_locked() {
    let mut contract = SplitNairaContract::new();
    let collabs = make_collaborators(&["alice", "bob"], &[7000u32, 3000u32]);
    assert_eq!(create(&mut contract, "owner", "locked_update", "Locked Update", "film", collabs), Ok(()));
    assert_eq!(contract.lock_project("locked_update".to_string(), "owner".to_string()), Ok(()));

    let updated = make_collaborators(&["alice", "bob", "carol"], &[5000u32, 3000u32, 2000u32]);
    let result = contract.update_collaborators("locked_update".to_string(), "owner".to_string(), updated);
    assert_eq!(result, Err(SplitError::ProjectLocked));
}

#[test]
fn test_lock_project_success() {
    let mut contract = SplitNairaContract::new();
    let collabs = make_collaborators(&["alice", "bob"], &[7000u32, 3000u32]);
    assert_eq!(
        create(&mut contract, "owner", "nollywood_film", "Nollywood Feature Film", "film", collabs),
        Ok(())
    );
    assert_eq!(contract.lock_project("nollywood_film".to_string(), "owner".to_string()), Ok(()));

    let project = contract.get_project("nollywood_film".to_string()).unwrap();
    assert_eq!(project.locked, true);
}

// ============================================================
//  DEPOSIT + DISTRIBUTION TESTS
// ============================================================

#[test]
fn test_distribute_splits_correctly() {
    let mut contract = SplitNairaContract::new();
    // 50% / 30% / 20% split
    let collabs = make_collaborators(&["alice", "bob", "carol"], &[5000u32, 3000u32, 2000u32]);
    assert_eq!(create(&mut contract, "owner", "podcast_ep1", "Podcast Episode 1", "podcast", collabs), Ok(()));

    // 1000 tokens in stroops (1000 * 10^7)
    deposit_to_project(&mut contract, "podcast_ep1", 1_000_0000000i128);
    assert_eq!(contract.get_balance("podcast_ep1".to_string()), Ok(1_000_0000000i128));

    let payouts = contract.distribute("podcast_ep1".to_string()).unwrap();

    assert_eq!(paid(&payouts, "alice"), 500_0000000i128);
    assert_eq!(paid(&payouts, "bob"), 300_0000000i128);
    assert_eq!(paid(&payouts, "carol"), 200_0000000i128);

    assert_eq!(contract.get_claimed("podcast_ep1".to_string(), "alice".to_string()), 500_0000000i128);

    let project = contract.get_project("podcast_ep1".to_string()).unwrap();
    assert_eq!(project.total_distributed, 1_000_0000000i128);
    assert_eq!(project.distribution_round, 1);
    assert_eq!(contract.get_balance("podcast_ep1".to_string()), Ok(0));
}

#[test]
fn test_distribute_fails_no_balance() {
    let mut contract = SplitNairaContract::new();
    let collabs = make_collaborators(&["alice", "bob"], &[5000u32, 5000u32]);
    assert_eq!(create(&mut contract, "owner", "empty_project", "Empty Project", "art", collabs), Ok(()));

    let result = contract.distribute("empty_project".to_string());
    assert_eq!(result.err(), Some(SplitError::NoBalance));

    let project = contract.get_project("empty_project".to_string()).unwrap();
    assert_eq!(project.distribution_round, 0);
}

#[test]
fn test_distribution_round_increments_only_on_success() {
    let mut contract = SplitNairaContract::new();
    let collabs = make_collaborators(&["alice", "bob"], &[5000u32, 5000u32]);
    assert_eq!(create(&mut contract, "owner", "round_counter", "Round Counter", "music", collabs), Ok(()));

    let failed = contract.distribute("round_counter".to_string());
    assert_eq!(failed.err(), Some(SplitError::NoBalance));
    assert_eq!(contract.get_project("round_counter".to_string()).unwrap().distribution_round, 0);

    deposit_to_project(&mut contract, "round_counter", 100_0000000i128);
    assert!(contract.distribute("round_counter".to_string()).is_ok());
    assert_eq!(contract.get_project("round_counter".to_string()).unwrap().distribution_round, 1);

    deposit_to_project(&mut contract, "round_counter", 50_0000000i128);
    assert!(contract.distribute("round_counter".to_string()).is_ok());
    let project = contract.get_project("round_counter".to_string()).unwrap();
    assert_eq!(project.distribution_round, 2);
    assert_eq!(project.total_distributed, 150_0000000i128);
}

#[test]
fn test_multi_project_balances_are_isolated() {
    let mut contract = SplitNairaContract::new();
    let collabs_a = make_collaborators(&["alice", "bob"], &[5000u32, 5000u32]);
    let collabs_b = make_collaborators(&["carol", "dave"], &[7000u32, 3000u32]);

    assert_eq!(create(&mut contract, "owner_a", "project_a", "Project A", "music", collabs_a), Ok(()));
    assert_eq!(create(&mut contract, "owner_b", "project_b", "Project B", "film", collabs_b), Ok(()));

    deposit_to_project(&mut contract, "project_a", 1_000_0000000i128);
    deposit_to_project(&mut contract, "project_b", 2_000_0000000i128);

    // Distributing project A must not consume project B funds.
    let payouts = contract.distribute("project_a".to_string()).unwrap();

    assert_eq!(paid(&payouts, "alice"), 500_0000000i128);
    assert_eq!(paid(&payouts, "bob"), 500_0000000i128);
    assert_eq!(paid(&payouts, "carol"), 0);
    assert_eq!(paid(&payouts, "dave"), 0);

    assert_eq!(contract.get_balance("project_a".to_string()), Ok(0));
    assert_eq!(contract.get_balance("project_b".to_string()), Ok(2_000_0000000i128));

    let project_a_data = contract.get_project("project_a".to_string()).unwrap();
    let project_b_data = contract.get_project("project_b".to_string()).unwrap();
    assert_eq!(project_a_data.distribution_round, 1);
    assert_eq!(project_a_data.total_distributed, 1_000_0000000i128);
    assert_eq!(project_b_data.distribution_round, 0);
    assert_eq!(project_b_data.total_distributed, 0);
}
