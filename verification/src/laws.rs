use vstd::prelude::*;

use crate::claims::{claims_total, lemma_credited_total, lemma_no_claims};
use crate::contract::{
    create_result, created, deposited, distribute_check, distributed, distribution_plan, LedgerView,
    new_project_view, stored_project_ok, update_result, with_collaborators, with_lock,
};
use crate::split::{
    bp_total, has_duplicate, has_flaw, lemma_last_payout, lemma_paid_to, lemma_payout_range, lemma_payouts_total,
    lemma_plan_total, lemma_valid_split_checks, payout, payout_plan, plan_total, shares_before,
    valid_split, validation_result,
};
use crate::types::{CollaboratorView, SplitError, SplitProjectView};

verus! {

/// A collaborator list passes the check exactly when it is a valid split.
pub proof fn law_check_accepts_valid_splits(cs: Seq<CollaboratorView>)
    ensures
        validation_result(cs) is Ok <==> valid_split(cs),
{
    if valid_split(cs) {
        lemma_valid_split_checks(cs);
    }
}

/// A distribution pays out exactly the balance: its transfers add up to it.
pub proof fn law_distribution_pays_whole_balance(balance: int, cs: Seq<CollaboratorView>)
    requires
        valid_split(cs),
        balance >= 0,
    ensures
        plan_total(payout_plan(balance, cs, cs.len() as int)) == balance,
{
    lemma_plan_total(balance, cs, cs.len() as int);
    lemma_payouts_total(balance, cs);
}

/// Every collaborator but the last receives its proportional share rounded
/// down; the last receives at least its own share, more by less than one
/// unit per other collaborator (the rounding remainder), and something
/// whenever the balance is positive.
pub proof fn law_distribution_proportional(balance: int, cs: Seq<CollaboratorView>, i: int)
    requires
        valid_split(cs),
        balance >= 0,
        0 <= i < cs.len(),
    ensures
        i < cs.len() - 1 ==> payout(balance, cs, i) == balance * cs[i].basis_points / 10000,
        i == cs.len() - 1 ==> payout(balance, cs, i) >= balance * cs[i].basis_points / 10000,
        i == cs.len() - 1 ==> payout(balance, cs, i) * 10000 <= balance * cs[i].basis_points + (cs.len() - 1) * 9999,
        i == cs.len() - 1 && balance > 0 ==> payout(balance, cs, i) > 0,
{
    lemma_last_payout(balance, cs);
    if i == cs.len() - 1 {
        lemma_shares_lower(balance, cs, i);
        lemma_take_all(cs, i);
        let rest = bp_total(cs.take(i));
        let last = cs[i].basis_points as int;
        assert(balance * rest + balance * last == balance * 10000) by (nonlinear_arith)
            requires
                rest + last == 10000,
        ;
    }
}

proof fn lemma_take_all(cs: Seq<CollaboratorView>, i: int)
    requires
        valid_split(cs),
        i == cs.len() - 1,
    ensures
        bp_total(cs.take(i)) + cs[i].basis_points == 10000,
{
    assert(cs.take(i + 1) =~= cs);
    assert(cs.take(i + 1).drop_last() =~= cs.take(i));
}

/// Rounding down loses less than one unit per share.
proof fn lemma_shares_lower(balance: int, cs: Seq<CollaboratorView>, n: int)
    requires
        balance >= 0,
        0 <= n <= cs.len(),
    ensures
        shares_before(balance, cs, n) * 10000 >= balance * bp_total(cs.take(n)) - n * 9999,
    decreases n,
{
    if n == 0 {
        assert(cs.take(0) =~= Seq::<CollaboratorView>::empty());
    } else {
        lemma_shares_lower(balance, cs, n - 1);
        assert(cs.take(n).drop_last() =~= cs.take(n - 1));
        let bp = cs[n - 1].basis_points as int;
        let a = bp_total(cs.take(n - 1));
        let x = balance * bp;
        assert(x >= 0) by (nonlinear_arith)
            requires
                x == balance * bp,
                balance >= 0,
                bp >= 0,
        ;
        assert((x / 10000) * 10000 >= x - 9999) by (nonlinear_arith)
            requires
                x >= 0,
        ;
        assert(balance * (a + bp) == balance * a + balance * bp) by (nonlinear_arith);
    }
}

/// After a distribution the project's balance is 0, its total distributed
/// has grown by exactly what the transfers paid, and its round count by one.
pub proof fn law_distribution_settles(v: LedgerView, project_id: Seq<char>)
    requires
        v.consistent(),
        distribute_check(v, project_id) is Ok,
        v.projects[project_id].distribution_round < u32::MAX,
    ensures
        distributed(v, project_id).balances[project_id] == 0,
        distributed(v, project_id).projects[project_id].total_distributed
            == v.projects[project_id].total_distributed + plan_total(distribution_plan(v, project_id)),
        distributed(v, project_id).projects[project_id].distribution_round
            == v.projects[project_id].distribution_round + 1,
        plan_total(distribution_plan(v, project_id)) == v.balances[project_id],
{
    assert(stored_project_ok(v, project_id));
    law_distribution_pays_whole_balance(v.balances[project_id], v.projects[project_id].collaborators);
}

/// A distribution grows each collaborator's claim on the project by its
/// payout, and leaves every other claim as it was.
pub proof fn law_distribution_credits_claims(v: LedgerView, project_id: Seq<char>, p: Seq<char>, a: Seq<char>)
    requires
        v.consistent(),
        distribute_check(v, project_id) is Ok,
    ensures
        ({
            let cs = v.projects[project_id].collaborators;
            let b = v.balances[project_id];
            &&& forall|i: int| 0 <= i < cs.len() ==> #[trigger] distributed(v, project_id).claimed_amount(project_id, cs[i].address)
                == v.claimed_amount(project_id, cs[i].address) + payout(b, cs, i)
            &&& (p != project_id || (forall|i: int| 0 <= i < cs.len() ==> #[trigger] cs[i].address != a))
                ==> distributed(v, project_id).claimed_amount(p, a) == v.claimed_amount(p, a)
        }),
{
    let cs = v.projects[project_id].collaborators;
    let b = v.balances[project_id];
    assert(stored_project_ok(v, project_id));
    lemma_payout_range(b, cs);
    assert forall|i: int| 0 <= i < cs.len() implies #[trigger] distributed(v, project_id).claimed_amount(project_id, cs[i].address)
        == v.claimed_amount(project_id, cs[i].address) + payout(b, cs, i) by {
        lemma_paid_to(b, cs, cs[i].address, cs.len() as int);
    }
    lemma_paid_to(b, cs, a, cs.len() as int);
}

/// What keeps every project other than `project_id` as it was.
pub open spec fn same_elsewhere(v1: LedgerView, v2: LedgerView, project_id: Seq<char>) -> bool {
    &&& forall|k: Seq<char>| k != project_id ==> (#[trigger] v2.projects.contains_key(k) == v1.projects.contains_key(k))
    &&& forall|k: Seq<char>| k != project_id && v1.projects.contains_key(k)
        ==> #[trigger] v2.projects[k] == v1.projects[k] && v2.balances[k] == v1.balances[k]
    &&& forall|k: Seq<char>, a: Seq<char>| k != project_id
        ==> #[trigger] v2.claimed_amount(k, a) == v1.claimed_amount(k, a)
}

/// Every operation on one project leaves every other project, its balance
/// and its claims as they were.
pub proof fn law_operations_isolated(
    v: LedgerView,
    project_id: Seq<char>,
    owner: Seq<char>,
    p: SplitProjectView,
    cs: Seq<CollaboratorView>,
    amount: int,
)
    requires
        v.consistent(),
        p.project_id == project_id,
    ensures
        same_elsewhere(v, created(v, p), project_id),
        v.projects.contains_key(project_id) ==> same_elsewhere(v, with_collaborators(v, project_id, cs), project_id),
        v.projects.contains_key(project_id) ==> same_elsewhere(v, with_lock(v, project_id), project_id),
        same_elsewhere(v, deposited(v, project_id, amount), project_id),
        distribute_check(v, project_id) is Ok ==> same_elsewhere(v, distributed(v, project_id), project_id),
{
    if v.projects.contains_key(project_id) {
        assert(stored_project_ok(v, project_id));
    }
}

/// Locked projects stay locked with the same split.
pub open spec fn locks_kept(v1: LedgerView, v2: LedgerView) -> bool {
    forall|k: Seq<char>| #[trigger] v1.projects.contains_key(k) && v1.projects[k].locked ==> {
        &&& v2.projects.contains_key(k)
        &&& v2.projects[k].locked
        &&& v2.projects[k].collaborators == v1.projects[k].collaborators
    }
}

/// Once locked, a project's split never changes: no successful operation
/// unlocks a project or changes a locked project's collaborators, and a
/// request to change them is refused.
pub proof fn law_locks_are_permanent(
    v: LedgerView,
    project_id: Seq<char>,
    owner: Seq<char>,
    p: SplitProjectView,
    cs: Seq<CollaboratorView>,
    amount: int,
)
    requires
        v.consistent(),
        p.project_id == project_id,
    ensures
        !v.projects.contains_key(project_id) ==> locks_kept(v, created(v, p)),
        update_result(v, project_id, owner, cs) is Ok ==> locks_kept(v, with_collaborators(v, project_id, cs)),
        v.projects.contains_key(project_id) && v.projects[project_id].locked
            ==> update_result(v, project_id, owner, cs) != Ok::<(), SplitError>(()),
        v.projects.contains_key(project_id) ==> locks_kept(v, with_lock(v, project_id)),
        v.projects.contains_key(project_id) ==> locks_kept(v, deposited(v, project_id, amount)),
        distribute_check(v, project_id) is Ok ==> locks_kept(v, distributed(v, project_id)),
{
}

/// Keeping locks composes over any sequence of operations.
pub proof fn law_locks_kept_transitive(v1: LedgerView, v2: LedgerView, v3: LedgerView)
    requires
        locks_kept(v1, v2),
        locks_kept(v2, v3),
    ensures
        locks_kept(v1, v3),
{
    assert forall|k: Seq<char>| #[trigger] v1.projects.contains_key(k) && v1.projects[k].locked implies {
        &&& v3.projects.contains_key(k)
        &&& v3.projects[k].locked
        &&& v3.projects[k].collaborators == v1.projects[k].collaborators
    } by {
        assert(v2.projects.contains_key(k));
    }
}

/// Creating a project makes it readable with exactly the given fields,
/// unlocked, with nothing distributed, a zero balance, and one more project
/// counted; a project created where none existed keeps the count equal to
/// the number of projects.
pub proof fn law_create_then_read(
    v: LedgerView,
    owner: Seq<char>,
    project_id: Seq<char>,
    title: Seq<char>,
    project_type: Seq<char>,
    token: Seq<char>,
    cs: Seq<CollaboratorView>,
)
    requires
        create_result(v, project_id, cs) is Ok,
    ensures
        ({
            let p = new_project_view(owner, project_id, title, project_type, token, cs);
            let w = created(v, p);
            &&& w.projects.contains_key(project_id)
            &&& w.projects[project_id] == p
            &&& !p.locked && p.total_distributed == 0 && p.distribution_round == 0
            &&& w.balances[project_id] == 0
            &&& w.project_count == v.project_count + 1
            &&& (v.projects.dom().finite() && v.project_count == v.projects.len())
                ==> (w.projects.dom().finite() && w.project_count == w.projects.len())
        }),
{
    let p = new_project_view(owner, project_id, title, project_type, token, cs);
    let w = created(v, p);
    assert(w.projects.dom() =~= v.projects.dom().insert(project_id));
}

/// The funds a project has taken in: what it still holds plus what it has
/// distributed.
pub open spec fn funds(v: LedgerView, project_id: Seq<char>) -> int {
    v.balances[project_id] + v.projects[project_id].total_distributed
}

/// A project's balance is its deposits minus its payouts: a new project
/// holds no funds, a deposit adds exactly its amount, and no other
/// operation changes the funds it has taken in (a distribution moves the
/// balance into the total distributed).
pub proof fn law_funds_accounting(
    v: LedgerView,
    project_id: Seq<char>,
    owner: Seq<char>,
    title: Seq<char>,
    project_type: Seq<char>,
    token: Seq<char>,
    cs: Seq<CollaboratorView>,
    amount: int,
)
    requires
        v.consistent(),
    ensures
        funds(created(v, new_project_view(owner, project_id, title, project_type, token, cs)), project_id) == 0,
        v.projects.contains_key(project_id) ==> funds(deposited(v, project_id, amount), project_id) == funds(v, project_id) + amount,
        v.projects.contains_key(project_id) ==> funds(with_lock(v, project_id), project_id) == funds(v, project_id),
        v.projects.contains_key(project_id) ==> funds(with_collaborators(v, project_id, cs), project_id) == funds(v, project_id),
        distribute_check(v, project_id) is Ok ==> funds(distributed(v, project_id), project_id) == funds(v, project_id),
        v.projects.contains_key(project_id) ==> v.balances[project_id] >= 0,
{
    if v.projects.contains_key(project_id) {
        assert(stored_project_ok(v, project_id));
    }
}

/// No operation removes a project.
pub proof fn law_projects_never_removed(
    v: LedgerView,
    project_id: Seq<char>,
    p: SplitProjectView,
    cs: Seq<CollaboratorView>,
    amount: int,
    k: Seq<char>,
)
    requires
        v.consistent(),
        v.projects.contains_key(k),
    ensures
        created(v, p).projects.contains_key(k),
        v.projects.contains_key(project_id) ==> with_collaborators(v, project_id, cs).projects.contains_key(k),
        v.projects.contains_key(project_id) ==> with_lock(v, project_id).projects.contains_key(k),
        deposited(v, project_id, amount).projects.contains_key(k),
        distributed(v, project_id).projects.contains_key(k),
{
}

/// The project count grows by exactly one on each successful creation and
/// on nothing else.
pub proof fn law_project_count(
    v: LedgerView,
    project_id: Seq<char>,
    p: SplitProjectView,
    cs: Seq<CollaboratorView>,
    amount: int,
)
    ensures
        created(v, p).project_count == v.project_count + 1,
        with_collaborators(v, project_id, cs).project_count == v.project_count,
        with_lock(v, project_id).project_count == v.project_count,
        deposited(v, project_id, amount).project_count == v.project_count,
        distributed(v, project_id).project_count == v.project_count,
{
}

/// Claims never decrease: only a distribution changes them, and it never
/// lowers one.
pub proof fn law_claims_only_grow(
    v: LedgerView,
    project_id: Seq<char>,
    p: SplitProjectView,
    cs: Seq<CollaboratorView>,
    amount: int,
    k: Seq<char>,
    a: Seq<char>,
)
    requires
        v.consistent(),
    ensures
        created(v, p).claimed == v.claimed,
        with_collaborators(v, project_id, cs).claimed == v.claimed,
        with_lock(v, project_id).claimed == v.claimed,
        deposited(v, project_id, amount).claimed == v.claimed,
        distribute_check(v, project_id) is Ok
            ==> distributed(v, project_id).claimed_amount(k, a) >= v.claimed_amount(k, a),
{
    if distribute_check(v, project_id) is Ok {
        let pcs = v.projects[project_id].collaborators;
        let b = v.balances[project_id];
        assert(stored_project_ok(v, project_id));
        lemma_payout_range(b, pcs);
        law_distribution_credits_claims(v, project_id, k, a);
        if k == project_id && exists|i: int| 0 <= i < pcs.len() && #[trigger] pcs[i].address == a {
            let i = choose|i: int| 0 <= i < pcs.len() && #[trigger] pcs[i].address == a;
            assert(payout(b, pcs, i) >= 0);
        }
    }
}

/// Every transfer of a distribution pays a positive amount to one of the
/// project's collaborators.
pub proof fn law_transfers_go_to_collaborators(balance: int, cs: Seq<CollaboratorView>, n: int)
    requires
        0 <= n <= cs.len(),
    ensures
        forall|t: int| 0 <= t < payout_plan(balance, cs, n).len() ==> {
            &&& #[trigger] payout_plan(balance, cs, n)[t].1 > 0
            &&& exists|i: int| 0 <= i < n && cs[i].address == payout_plan(balance, cs, n)[t].0
        },
    decreases n,
{
    if n > 0 {
        law_transfers_go_to_collaborators(balance, cs, n - 1);
        let prev = payout_plan(balance, cs, n - 1);
        let cur = payout_plan(balance, cs, n);
        assert forall|t: int| 0 <= t < cur.len() implies {
            &&& #[trigger] cur[t].1 > 0
            &&& exists|i: int| 0 <= i < n && cs[i].address == cur[t].0
        } by {
            if t < prev.len() {
                assert(cur[t] == prev[t]);
                assert(prev[t].1 > 0);
                let i = choose|i: int| 0 <= i < n - 1 && cs[i].address == prev[t].0;
                assert(cs[i].address == cur[t].0);
            } else {
                assert(cs[n - 1].address == cur[t].0);
            }
        }
    }
}

/// `cs2` lists the collaborators of `cs` in another order: position `i`
/// of `cs2` holds position `f(i)` of `cs`, and no position is used twice.
pub open spec fn is_reordering(cs: Seq<CollaboratorView>, cs2: Seq<CollaboratorView>, f: spec_fn(int) -> int) -> bool {
    &&& cs2.len() == cs.len()
    &&& forall|i: int| 0 <= i < cs2.len() ==> 0 <= #[trigger] f(i) < cs.len() && cs2[i] == cs[f(i)]
    &&& forall|i: int, j: int|
        0 <= i < cs2.len() && 0 <= j < cs2.len() && i != j ==> #[trigger] f(i) != #[trigger] f(j)
}

/// Some position below `n` is sent to `j` by `f`.
spec fn position_used(n: int, f: spec_fn(int) -> int, j: int) -> bool {
    exists|i: int| 0 <= i < n && #[trigger] f(i) == j
}

proof fn lemma_bp_total_remove(cs: Seq<CollaboratorView>, k: int)
    requires
        0 <= k < cs.len(),
    ensures
        bp_total(cs.remove(k)) + cs[k].basis_points == bp_total(cs),
    decreases cs.len(),
{
    if k == cs.len() - 1 {
        assert(cs.remove(k) =~= cs.drop_last());
    } else {
        lemma_bp_total_remove(cs.drop_last(), k);
        assert(cs.remove(k).drop_last() =~= cs.drop_last().remove(k));
        assert(cs.remove(k).last() == cs.last());
    }
}

/// A reordering keeps the sum of basis points and uses every position.
proof fn lemma_reordering(cs: Seq<CollaboratorView>, cs2: Seq<CollaboratorView>, f: spec_fn(int) -> int)
    requires
        is_reordering(cs, cs2, f),
    ensures
        bp_total(cs2) == bp_total(cs),
        forall|j: int| 0 <= j < cs.len() ==> #[trigger] position_used(cs2.len() as int, f, j),
    decreases cs.len(),
{
    let n = cs.len() as int;
    if n > 0 {
        let k = f(n - 1);
        let r = cs.remove(k);
        let r2 = cs2.drop_last();
        let g = |i: int| if f(i) < k { f(i) } else { f(i) - 1 };
        assert forall|i: int| 0 <= i < r2.len() implies 0 <= #[trigger] g(i) < r.len() && r2[i] == r[g(i)] by {
            assert(f(i) != f(n - 1));
        }
        assert forall|i: int, j: int| 0 <= i < r2.len() && 0 <= j < r2.len() && i != j implies #[trigger] g(i) != #[trigger] g(j) by {
            assert(f(i) != f(j));
            assert(f(i) != f(n - 1));
            assert(f(j) != f(n - 1));
        }
        lemma_reordering(r, r2, g);
        lemma_bp_total_remove(cs, k);
        assert forall|j: int| 0 <= j < cs.len() implies #[trigger] position_used(cs2.len() as int, f, j) by {
            if j == k {
                assert(f(n - 1) == j);
            } else {
                let jj = if j < k { j } else { j - 1 };
                assert(position_used(r2.len() as int, g, jj));
                let i = choose|i: int| 0 <= i < r2.len() && #[trigger] g(i) == jj;
                assert(f(i) != f(n - 1));
                assert(f(i) == j);
            }
        }
    }
}

proof fn lemma_reordering_flaws(cs: Seq<CollaboratorView>, cs2: Seq<CollaboratorView>, f: spec_fn(int) -> int)
    requires
        is_reordering(cs, cs2, f),
        forall|i: int| 0 <= i < cs.len() ==> !#[trigger] has_flaw(cs, i),
    ensures
        forall|i: int| 0 <= i < cs2.len() ==> !#[trigger] has_flaw(cs2, i),
{
    assert forall|i: int| 0 <= i < cs2.len() implies !#[trigger] has_flaw(cs2, i) by {
        assert(!has_flaw(cs, f(i)));
        if has_duplicate(cs2, i) {
            let j = choose|j: int| 0 <= j < cs2.len() && j != i && #[trigger] cs2[j].address == cs2[i].address;
            assert(f(j) != f(i));
            assert(cs[f(j)].address == cs[f(i)].address);
            assert(has_duplicate(cs, f(i)));
        }
    }
}

/// The order of the collaborators does not matter to validation: a list
/// and any reordering of it are both accepted or both refused, and they
/// get the same answer when neither has a zero share or repeated address
/// (or when there are too few collaborators).
pub proof fn law_validation_ignores_order(cs: Seq<CollaboratorView>, cs2: Seq<CollaboratorView>, f: spec_fn(int) -> int)
    requires
        is_reordering(cs, cs2, f),
    ensures
        validation_result(cs) is Ok <==> validation_result(cs2) is Ok,
        (cs.len() < 2 || forall|i: int| 0 <= i < cs.len() ==> !#[trigger] has_flaw(cs, i))
            ==> validation_result(cs) == validation_result(cs2),
{
    lemma_reordering(cs, cs2, f);
    law_check_accepts_valid_splits(cs);
    law_check_accepts_valid_splits(cs2);
    if forall|i: int| 0 <= i < cs.len() ==> !#[trigger] has_flaw(cs, i) {
        lemma_reordering_flaws(cs, cs2, f);
    }
    if valid_split(cs2) {
        // cs is a reordering of cs2 by the inverse of f.
        let h = |j: int| choose|i: int| 0 <= i < cs2.len() && #[trigger] f(i) == j;
        assert forall|j: int| 0 <= j < cs.len() implies 0 <= #[trigger] h(j) < cs2.len() && cs[j] == cs2[h(j)] by {
            assert(position_used(cs2.len() as int, f, j));
        }
        assert forall|a: int, b: int| 0 <= a < cs.len() && 0 <= b < cs.len() && a != b implies #[trigger] h(a) != #[trigger] h(b) by {
            assert(position_used(cs2.len() as int, f, a));
            assert(position_used(cs2.len() as int, f, b));
        }
        assert(is_reordering(cs2, cs, h));
        lemma_reordering_flaws(cs2, cs, h);
    }
}

/// The claims recorded on project `project_id` add up to its total
/// distributed.
pub open spec fn claims_match_total(v: LedgerView, project_id: Seq<char>) -> bool {
    claims_total(v.claimed, project_id) == v.projects[project_id].total_distributed
}

/// Every payout is recorded as a claim: a project created with no claims
/// on record starts with claims adding up to its total distributed (0),
/// and every operation, on this project or another, keeps that so.
pub proof fn law_claims_sum_to_total_distributed(
    v: LedgerView,
    project_id: Seq<char>,
    other: Seq<char>,
    owner: Seq<char>,
    title: Seq<char>,
    project_type: Seq<char>,
    token: Seq<char>,
    cs: Seq<CollaboratorView>,
    amount: int,
)
    requires
        v.consistent(),
    ensures
        (forall|k: (Seq<char>, Seq<char>)| #[trigger] v.claimed.contains_key(k) ==> k.0 != project_id)
            ==> claims_match_total(
            created(v, new_project_view(owner, project_id, title, project_type, token, cs)),
            project_id,
        ),
        claims_match_total(v, project_id) && v.projects.contains_key(project_id) ==> {
            &&& claims_match_total(deposited(v, project_id, amount), project_id)
            &&& claims_match_total(with_lock(v, project_id), project_id)
            &&& claims_match_total(with_collaborators(v, project_id, cs), project_id)
        },
        claims_match_total(v, project_id) && distribute_check(v, project_id) is Ok
            ==> claims_match_total(distributed(v, project_id), project_id),
        claims_match_total(v, project_id) && other != project_id ==> {
            &&& claims_match_total(created(v, new_project_view(owner, other, title, project_type, token, cs)), project_id)
            &&& v.projects.contains_key(other) ==> claims_match_total(deposited(v, other, amount), project_id)
            &&& v.projects.contains_key(other) ==> claims_match_total(with_lock(v, other), project_id)
            &&& v.projects.contains_key(other) ==> claims_match_total(with_collaborators(v, other, cs), project_id)
            &&& distribute_check(v, other) is Ok ==> claims_match_total(distributed(v, other), project_id)
        },
{
    if forall|k: (Seq<char>, Seq<char>)| #[trigger] v.claimed.contains_key(k) ==> k.0 != project_id {
        lemma_no_claims(v.claimed, project_id);
    }
    if v.projects.contains_key(project_id) {
        assert(stored_project_ok(v, project_id));
    }
    if v.projects.contains_key(other) {
        assert(stored_project_ok(v, other));
    }
    if distribute_check(v, project_id) is Ok {
        let pcs = v.projects[project_id].collaborators;
        let b = v.balances[project_id];
        lemma_credited_total(v.claimed, project_id, b, pcs, pcs.len() as int, project_id);
        lemma_payouts_total(b, pcs);
    }
    if distribute_check(v, other) is Ok && other != project_id {
        let pcs = v.projects[other].collaborators;
        let b = v.balances[other];
        lemma_credited_total(v.claimed, other, b, pcs, pcs.len() as int, project_id);
    }
}

} // verus!
