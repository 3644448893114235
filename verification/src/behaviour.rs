use vstd::prelude::*;

use crate::contract::{
    create_result, created, deposit_result, deposited, distribute_check, distributed,
    distribution_in_range, lock_result, new_project_view, owner_result, stored_project_ok,
    update_result, with_collaborators, with_lock, LedgerView,
};
use crate::split::{
    bp_total, has_duplicate, has_flaw, is_first_flaw, lemma_first_flaw_unique, payout,
    validation_result,
};
use crate::types::{CollaboratorView, SplitError};

verus! {

// What each operation accepts and what it changes, stated field by field
// over the storage before and after.

/// The rules a split must meet, as the contract documents them: at least
/// two collaborators, no zero share, no address twice, and shares summing
/// to exactly 10000 basis points.
pub open spec fn meets_split_rules(cs: Seq<CollaboratorView>) -> bool {
    &&& cs.len() >= 2
    &&& forall|i: int| 0 <= i < cs.len() ==> #[trigger] cs[i].basis_points > 0
    &&& forall|i: int, j: int|
        #![trigger cs[i], cs[j]]
        0 <= i < cs.len() && 0 <= j < cs.len() && i != j ==> cs[i].address != cs[j].address
    &&& bp_total(cs) == 10000
}

/// Validation accepts exactly the splits that meet the rules, whatever
/// their length.
pub proof fn law_validation_accepts_exactly(cs: Seq<CollaboratorView>)
    ensures
        validation_result(cs) is Ok <==> meets_split_rules(cs),
        cs.len() < 2 ==> validation_result(cs) == Err::<(), SplitError>(SplitError::TooFewCollaborators),
        cs.len() >= 2 && (forall|i: int| 0 <= i < cs.len() ==> !#[trigger] has_flaw(cs, i)) && bp_total(cs) != 10000
            ==> validation_result(cs) == Err::<(), SplitError>(SplitError::InvalidSplit),
{
    if cs.len() >= 2 {
        if exists|k: int| 0 <= k < cs.len() && #[trigger] has_flaw(cs, k) {
            let k = choose|k: int| 0 <= k < cs.len() && #[trigger] has_flaw(cs, k);
            if cs[k].basis_points != 0 {
                let j = choose|j: int| 0 <= j < cs.len() && j != k && #[trigger] cs[j].address == cs[k].address;
                assert(cs[j].address == cs[k].address);
            }
        } else {
            assert forall|i: int| 0 <= i < cs.len() implies #[trigger] cs[i].basis_points > 0 by {
                assert(!has_flaw(cs, i));
            }
            assert forall|i: int, j: int|
                #![trigger cs[i], cs[j]]
                0 <= i < cs.len() && 0 <= j < cs.len() && i != j implies cs[i].address != cs[j].address by {
                assert(!has_flaw(cs, i));
                if cs[i].address == cs[j].address {
                    assert(has_duplicate(cs, i));
                }
            }
        }
    }
}

/// `create_project` succeeds exactly on a new id with a split that meets
/// the rules, with no limit on the number of collaborators; on a new id its
/// answer is the split's verdict.
pub proof fn law_create_accepts(v: LedgerView, project_id: Seq<char>, cs: Seq<CollaboratorView>)
    ensures
        create_result(v, project_id, cs) is Ok <==> !v.projects.contains_key(project_id) && meets_split_rules(cs),
        v.projects.contains_key(project_id)
            ==> create_result(v, project_id, cs) == Err::<(), SplitError>(SplitError::ProjectExists),
        !v.projects.contains_key(project_id) ==> create_result(v, project_id, cs) == validation_result(cs),
{
    law_validation_accepts_exactly(cs);
}

/// A successful `create_project` stores the project with exactly the
/// given fields, unlocked and with nothing distributed, a zero balance, one
/// more project counted, and changes nothing else.
pub proof fn law_create_effect(
    v: LedgerView,
    owner: Seq<char>,
    project_id: Seq<char>,
    title: Seq<char>,
    project_type: Seq<char>,
    token: Seq<char>,
    cs: Seq<CollaboratorView>,
    k: Seq<char>,
)
    ensures
        ({
            let w = created(v, new_project_view(owner, project_id, title, project_type, token, cs));
            &&& w.projects.contains_key(project_id)
            &&& w.projects[project_id].project_id == project_id
            &&& w.projects[project_id].title == title
            &&& w.projects[project_id].project_type == project_type
            &&& w.projects[project_id].token == token
            &&& w.projects[project_id].owner == owner
            &&& w.projects[project_id].collaborators == cs
            &&& !w.projects[project_id].locked
            &&& w.projects[project_id].total_distributed == 0
            &&& w.projects[project_id].distribution_round == 0
            &&& w.balances.contains_key(project_id) && w.balances[project_id] == 0
            &&& w.project_count == v.project_count + 1
            &&& w.claimed == v.claimed
            &&& k != project_id ==> (w.projects.contains_key(k) == v.projects.contains_key(k)
                && w.projects[k] == v.projects[k] && w.balances.contains_key(k) == v.balances.contains_key(k)
                && w.balances[k] == v.balances[k])
        }),
{
}

/// `update_collaborators` succeeds exactly when the project exists, the
/// caller owns it, it is not locked, and the new split meets the rules,
/// whatever the project's balance or distribution history; it refuses a
/// missing project, then a stranger, then a locked project, then a bad split.
pub proof fn law_update_accepts(v: LedgerView, project_id: Seq<char>, owner: Seq<char>, cs: Seq<CollaboratorView>)
    ensures
        update_result(v, project_id, owner, cs) is Ok <==> {
            &&& v.projects.contains_key(project_id)
            &&& v.projects[project_id].owner == owner
            &&& !v.projects[project_id].locked
            &&& meets_split_rules(cs)
        },
        !v.projects.contains_key(project_id)
            ==> update_result(v, project_id, owner, cs) == Err::<(), SplitError>(SplitError::NotFound),
        v.projects.contains_key(project_id) && v.projects[project_id].owner != owner
            ==> update_result(v, project_id, owner, cs) == Err::<(), SplitError>(SplitError::Unauthorized),
        v.projects.contains_key(project_id) && v.projects[project_id].owner == owner && v.projects[project_id].locked
            ==> update_result(v, project_id, owner, cs) == Err::<(), SplitError>(SplitError::ProjectLocked),
        v.projects.contains_key(project_id) && v.projects[project_id].owner == owner && !v.projects[project_id].locked
            ==> update_result(v, project_id, owner, cs) == validation_result(cs),
{
    law_validation_accepts_exactly(cs);
}

/// A successful update replaces the collaborators and nothing else.
pub proof fn law_update_effect(v: LedgerView, project_id: Seq<char>, cs: Seq<CollaboratorView>, k: Seq<char>)
    requires
        v.consistent(),
        v.projects.contains_key(project_id),
    ensures
        ({
            let w = with_collaborators(v, project_id, cs);
            let p = v.projects[project_id];
            let q = w.projects[project_id];
            &&& w.projects.contains_key(project_id)
            &&& q.collaborators == cs
            &&& q.project_id == p.project_id && q.title == p.title && q.project_type == p.project_type
            &&& q.token == p.token && q.owner == p.owner && q.locked == p.locked
            &&& q.total_distributed == p.total_distributed && q.distribution_round == p.distribution_round
            &&& w.balances[project_id] == v.balances[project_id]
            &&& w.claimed == v.claimed && w.project_count == v.project_count
            &&& k != project_id ==> (w.projects.contains_key(k) == v.projects.contains_key(k)
                && w.projects[k] == v.projects[k] && w.balances[k] == v.balances[k])
        }),
{
    assert(stored_project_ok(v, project_id));
}

/// `lock_project` succeeds exactly when the project exists, the caller owns
/// it and it is not locked yet, whatever its balance.
pub proof fn law_lock_accepts(v: LedgerView, project_id: Seq<char>, owner: Seq<char>)
    ensures
        lock_result(v, project_id, owner) is Ok <==> {
            &&& v.projects.contains_key(project_id)
            &&& v.projects[project_id].owner == owner
            &&& !v.projects[project_id].locked
        },
        !v.projects.contains_key(project_id)
            ==> lock_result(v, project_id, owner) == Err::<(), SplitError>(SplitError::NotFound),
        v.projects.contains_key(project_id) && v.projects[project_id].owner != owner
            ==> lock_result(v, project_id, owner) == Err::<(), SplitError>(SplitError::Unauthorized),
        v.projects.contains_key(project_id) && v.projects[project_id].owner == owner && v.projects[project_id].locked
            ==> lock_result(v, project_id, owner) == Err::<(), SplitError>(SplitError::AlreadyLocked),
{
}

/// A successful lock sets the lock flag and changes nothing else.
pub proof fn law_lock_effect(v: LedgerView, project_id: Seq<char>, k: Seq<char>)
    requires
        v.consistent(),
        v.projects.contains_key(project_id),
    ensures
        ({
            let w = with_lock(v, project_id);
            let p = v.projects[project_id];
            let q = w.projects[project_id];
            &&& w.projects.contains_key(project_id)
            &&& q.locked
            &&& q.collaborators == p.collaborators
            &&& q.project_id == p.project_id && q.title == p.title && q.project_type == p.project_type
            &&& q.token == p.token && q.owner == p.owner
            &&& q.total_distributed == p.total_distributed && q.distribution_round == p.distribution_round
            &&& w.balances[project_id] == v.balances[project_id]
            &&& w.claimed == v.claimed && w.project_count == v.project_count
            &&& k != project_id ==> (w.projects.contains_key(k) == v.projects.contains_key(k)
                && w.projects[k] == v.projects[k] && w.balances[k] == v.balances[k])
        }),
{
    assert(stored_project_ok(v, project_id));
}

/// `deposit` succeeds exactly on a positive amount for an existing
/// project, locked or not; a non-positive amount is refused first.
pub proof fn law_deposit_accepts(v: LedgerView, project_id: Seq<char>, amount: int)
    ensures
        deposit_result(v, project_id, amount) is Ok <==> amount > 0 && v.projects.contains_key(project_id),
        amount <= 0 ==> deposit_result(v, project_id, amount) == Err::<(), SplitError>(SplitError::InvalidAmount),
        amount > 0 && !v.projects.contains_key(project_id)
            ==> deposit_result(v, project_id, amount) == Err::<(), SplitError>(SplitError::NotFound),
{
}

/// A successful deposit adds its amount to the project's balance and
/// changes nothing else.
pub proof fn law_deposit_effect(v: LedgerView, project_id: Seq<char>, amount: int, k: Seq<char>)
    ensures
        ({
            let w = deposited(v, project_id, amount);
            &&& w.balances.contains_key(project_id)
            &&& w.balances[project_id] == v.balances[project_id] + amount
            &&& w.projects == v.projects
            &&& w.claimed == v.claimed && w.project_count == v.project_count
            &&& k != project_id ==> (w.balances.contains_key(k) == v.balances.contains_key(k)
                && w.balances[k] == v.balances[k])
        }),
{
}

/// `distribute` succeeds exactly for an existing project with a positive
/// balance, locked or not; a missing project is refused first.
pub proof fn law_distribute_accepts(v: LedgerView, project_id: Seq<char>)
    ensures
        distribute_check(v, project_id) is Ok <==> v.projects.contains_key(project_id) && v.balances[project_id] > 0,
        !v.projects.contains_key(project_id)
            ==> distribute_check(v, project_id) == Err::<(), SplitError>(SplitError::NotFound),
        v.projects.contains_key(project_id) && v.balances[project_id] <= 0
            ==> distribute_check(v, project_id) == Err::<(), SplitError>(SplitError::NoBalance),
{
}

/// A successful distribution empties the balance, adds it to the total
/// distributed, counts one more round, and leaves every other field, the
/// lock included, as it was.
pub proof fn law_distribute_effect(v: LedgerView, project_id: Seq<char>, k: Seq<char>)
    requires
        v.consistent(),
        distribute_check(v, project_id) is Ok,
        v.projects[project_id].distribution_round < u32::MAX,
    ensures
        ({
            let w = distributed(v, project_id);
            let p = v.projects[project_id];
            let q = w.projects[project_id];
            &&& w.projects.contains_key(project_id)
            &&& w.balances[project_id] == 0
            &&& q.total_distributed == p.total_distributed + v.balances[project_id]
            &&& q.distribution_round == p.distribution_round + 1
            &&& q.locked == p.locked && q.collaborators == p.collaborators
            &&& q.project_id == p.project_id && q.title == p.title && q.project_type == p.project_type
            &&& q.token == p.token && q.owner == p.owner
            &&& w.project_count == v.project_count
            &&& k != project_id ==> (w.projects.contains_key(k) == v.projects.contains_key(k)
                && w.projects[k] == v.projects[k] && w.balances[k] == v.balances[k])
        }),
{
}

/// Collaborator `i` has a zero share or shares its address with another.
pub open spec fn breaks_rules_at(cs: Seq<CollaboratorView>, i: int) -> bool {
    cs[i].basis_points == 0 || exists|j: int| 0 <= j < cs.len() && j != i && #[trigger] cs[j].address == cs[i].address
}

/// The first collaborator that breaks the rules decides the error: a zero
/// share is reported as such even when the address also repeats, otherwise
/// the repeated address is reported.
pub proof fn law_validation_first_flaw(cs: Seq<CollaboratorView>, k: int)
    requires
        cs.len() >= 2,
        0 <= k < cs.len(),
        breaks_rules_at(cs, k),
        forall|i: int| 0 <= i < k ==> !#[trigger] breaks_rules_at(cs, i),
    ensures
        cs[k].basis_points == 0 ==> validation_result(cs) == Err::<(), SplitError>(SplitError::ZeroShare),
        cs[k].basis_points != 0
            ==> validation_result(cs) == Err::<(), SplitError>(SplitError::DuplicateCollaborator),
{
    assert forall|i: int| 0 <= i < k implies !#[trigger] has_flaw(cs, i) by {
        assert(!breaks_rules_at(cs, i));
        if has_duplicate(cs, i) {
            let j = choose|j: int| 0 <= j < cs.len() && j != i && #[trigger] cs[j].address == cs[i].address;
            assert(cs[j].address == cs[i].address);
        }
    }
    if cs[k].basis_points != 0 {
        let j = choose|j: int| 0 <= j < cs.len() && j != k && #[trigger] cs[j].address == cs[k].address;
        assert(cs[j].address == cs[k].address);
        assert(has_duplicate(cs, k));
    }
    assert(has_flaw(cs, k));
    assert(is_first_flaw(cs, k));
    lemma_first_flaw_unique(cs, k);
}

/// The owner check passes exactly for the owner of an existing project.
pub proof fn law_owner_check(v: LedgerView, project_id: Seq<char>, owner: Seq<char>)
    ensures
        owner_result(v, project_id, owner) is Ok <==> v.projects.contains_key(project_id)
            && v.projects[project_id].owner == owner,
        !v.projects.contains_key(project_id)
            ==> owner_result(v, project_id, owner) == Err::<(), SplitError>(SplitError::NotFound),
        v.projects.contains_key(project_id) && v.projects[project_id].owner != owner
            ==> owner_result(v, project_id, owner) == Err::<(), SplitError>(SplitError::Unauthorized),
{
}

/// A distribution is refused by its arithmetic bounds only where a share, a
/// claim, the total or the round count would leave its integer type;
/// nothing else, such as the lock, stands in its way.
pub proof fn law_distribution_bounds(v: LedgerView, project_id: Seq<char>)
    ensures
        distribution_in_range(v, project_id) <==> (
            v.projects.contains_key(project_id) && v.balances[project_id] > 0 ==> {
                let p = v.projects[project_id];
                let b = v.balances[project_id];
                let cs = p.collaborators;
                &&& forall|i: int| 0 <= i < cs.len() - 1 ==> b * (#[trigger] cs[i]).basis_points <= i128::MAX
                &&& forall|i: int| 0 <= i < cs.len() && payout(b, cs, i) > 0
                    ==> v.claimed_amount(project_id, cs[i].address) + #[trigger] payout(b, cs, i) <= i128::MAX
                &&& p.total_distributed + b <= i128::MAX
                &&& p.distribution_round < u32::MAX
            }
        ),
{
}

} // verus!
