use vstd::prelude::*;

use crate::contract::SplitNairaContract;
use crate::types::{collaborators_view, Collaborator, CollaboratorView, SplitError};

verus! {

/// Sum of the basis points of `cs`.
pub open spec fn bp_total(cs: Seq<CollaboratorView>) -> int
    decreases cs.len(),
{
    if cs.len() == 0 {
        0
    } else {
        bp_total(cs.drop_last()) + cs.last().basis_points
    }
}

/// `total`, saturated just above the one sum a valid split may have.
pub open spec fn capped(total: int) -> int {
    if total > 10000 {
        10001
    } else {
        total
    }
}

/// Another collaborator of `cs` has the address of `cs[i]`.
pub open spec fn has_duplicate(cs: Seq<CollaboratorView>, i: int) -> bool {
    exists|j: int| 0 <= j < cs.len() && j != i && #[trigger] cs[j].address == cs[i].address
}

/// `cs[i]` makes the split invalid on its own: a zero share or a repeated address.
pub open spec fn has_flaw(cs: Seq<CollaboratorView>, i: int) -> bool {
    cs[i].basis_points == 0 || has_duplicate(cs, i)
}

/// No collaborator before position `i` has a flaw.
pub open spec fn no_flaw_before(cs: Seq<CollaboratorView>, i: int) -> bool {
    forall|j: int| 0 <= j < i ==> !#[trigger] has_flaw(cs, j)
}

/// `k` is the position of the first flawed collaborator.
pub open spec fn is_first_flaw(cs: Seq<CollaboratorView>, k: int) -> bool {
    0 <= k < cs.len() && has_flaw(cs, k) && no_flaw_before(cs, k)
}

/// The verdict on a collaborator list: at least two collaborators; the first
/// flawed one decides between a zero share and a repeated address; a list
/// without flaws must sum to exactly 10000 basis points.
pub open spec fn validation_result(cs: Seq<CollaboratorView>) -> Result<(), SplitError> {
    if cs.len() < 2 {
        Err(SplitError::TooFewCollaborators)
    } else if exists|k: int| 0 <= k < cs.len() && #[trigger] has_flaw(cs, k) {
        let k = choose|k: int| is_first_flaw(cs, k);
        if cs[k].basis_points == 0 {
            Err(SplitError::ZeroShare)
        } else {
            Err(SplitError::DuplicateCollaborator)
        }
    } else if bp_total(cs) == 10000 {
        Ok(())
    } else {
        Err(SplitError::InvalidSplit)
    }
}

/// A valid split: two or more collaborators, distinct addresses, nonzero
/// shares, and shares summing to 10000 basis points.
pub open spec fn valid_split(cs: Seq<CollaboratorView>) -> bool {
    &&& cs.len() >= 2
    &&& forall|i: int| 0 <= i < cs.len() ==> !#[trigger] has_flaw(cs, i)
    &&& bp_total(cs) == 10000
}

proof fn lemma_take_step(cs: Seq<CollaboratorView>, i: int)
    requires
        0 <= i < cs.len(),
    ensures
        bp_total(cs.take(i + 1)) == bp_total(cs.take(i)) + cs[i].basis_points,
{
    assert(cs.take(i + 1).drop_last() =~= cs.take(i));
}

/// The running total never decreases.
pub proof fn lemma_bp_total_prefix(cs: Seq<CollaboratorView>, i: int)
    requires
        0 <= i <= cs.len(),
    ensures
        bp_total(cs.take(i)) <= bp_total(cs),
    decreases cs.len() - i,
{
    if i < cs.len() {
        lemma_take_step(cs, i);
        lemma_bp_total_prefix(cs, i + 1);
    } else {
        assert(cs.take(i) =~= cs);
    }
}

pub proof fn lemma_first_flaw_unique(cs: Seq<CollaboratorView>, k: int)
    requires
        is_first_flaw(cs, k),
    ensures
        (choose|c: int| is_first_flaw(cs, c)) == k,
{
    let c = choose|c: int| is_first_flaw(cs, c);
    assert(is_first_flaw(cs, c));
    if c < k {
        assert(!has_flaw(cs, c));
    } else if c > k {
        assert(!has_flaw(cs, k));
    }
}

impl SplitNairaContract {
/// Checks a collaborator list: the verdict is `validation_result`, on
/// every list. The running total is kept saturated just above 10000, so
/// any sum other than 10000, however large, is answered `InvalidSplit`.
pub fn validate_collaborators(collaborators: &Vec<Collaborator>) -> (res: Result<(), SplitError>)
    ensures
        res == validation_result(collaborators_view(collaborators@)),
{
    let ghost cs = collaborators_view(collaborators@);
    let n: usize = collaborators.len();
    if n < 2 {
        return Err(SplitError::TooFewCollaborators);
    }
    let mut total: u32 = 0;
    for i in 0..n
        invariant
            n == collaborators@.len(),
            cs == collaborators_view(collaborators@),
            n >= 2,
            total == capped(bp_total(cs.take(i as int))),
            no_flaw_before(cs, i as int),
    {
        assert(cs[i as int] == collaborators@[i as int]@);
        let bp: u32 = collaborators[i].basis_points;
        if bp == 0 {
            proof {
                assert(has_flaw(cs, i as int));
                lemma_first_flaw_unique(cs, i as int);
            }
            return Err(SplitError::ZeroShare);
        }
        proof {
            lemma_take_step(cs, i as int);
            lemma_bp_total_nonneg(cs.take(i as int));
        }
        total = if total > 10000 || bp > 10000 - total {
            10001
        } else {
            total + bp
        };
        if repeats_address(collaborators, i) {
            proof {
                assert(has_flaw(cs, i as int));
                lemma_first_flaw_unique(cs, i as int);
            }
            return Err(SplitError::DuplicateCollaborator);
        }
        assert(!has_flaw(cs, i as int));
    }
    assert(cs.take(n as int) =~= cs);
    assert(forall|k: int| 0 <= k < cs.len() ==> !#[trigger] has_flaw(cs, k));
    if total != 10000 {
        return Err(SplitError::InvalidSplit);
    }
    Ok(())
}
}

/// Whether another collaborator shares the address of `collaborators[i]`.
fn repeats_address(collaborators: &Vec<Collaborator>, i: usize) -> (res: bool)
    requires
        i < collaborators@.len(),
    ensures
        res == has_duplicate(collaborators_view(collaborators@), i as int),
{
    let ghost cs = collaborators_view(collaborators@);
    let n: usize = collaborators.len();
    for j in 0..n
        invariant
            n == collaborators@.len(),
            cs == collaborators_view(collaborators@),
            i < n,
            forall|m: int| 0 <= m < j && m != i ==> #[trigger] cs[m].address != cs[i as int].address,
    {
        assert(cs[j as int] == collaborators@[j as int]@);
        assert(cs[i as int] == collaborators@[i as int]@);
        if i != j && collaborators[i].address == collaborators[j].address {
            assert(cs[j as int].address == cs[i as int].address);
            return true;
        }
    }
    false
}

/// Whether `collaborators` form a valid split; never fails itself.
pub fn is_valid_split(collaborators: &Vec<Collaborator>) -> (res: bool)
    ensures
        res == valid_split(collaborators_view(collaborators@)),
{
    let ghost cs = collaborators_view(collaborators@);
    let n: usize = collaborators.len();
    if n < 2 {
        return false;
    }
    let mut total: u32 = 0;
    for i in 0..n
        invariant
            n == collaborators@.len(),
            cs == collaborators_view(collaborators@),
            n >= 2,
            total == bp_total(cs.take(i as int)),
            total <= 10000,
            no_flaw_before(cs, i as int),
    {
        assert(cs[i as int] == collaborators@[i as int]@);
        if collaborators[i].basis_points == 0 || repeats_address(collaborators, i) {
            assert(has_flaw(cs, i as int));
            return false;
        }
        proof {
            lemma_take_step(cs, i as int);
        }
        if collaborators[i].basis_points > 10000 - total {
            proof {
                lemma_bp_total_prefix(cs, i + 1);
            }
            return false;
        }
        total = total + collaborators[i].basis_points;
        assert(!has_flaw(cs, i as int));
    }
    assert(cs.take(n as int) =~= cs);
    total == 10000
}

/// A valid split passes the check.
pub proof fn lemma_valid_split_checks(cs: Seq<CollaboratorView>)
    requires
        valid_split(cs),
    ensures
        validation_result(cs) == Ok::<(), SplitError>(()),
{
}

/// A sum of basis points is never negative.
pub proof fn lemma_bp_total_nonneg(cs: Seq<CollaboratorView>)
    ensures
        bp_total(cs) >= 0,
    decreases cs.len(),
{
    if cs.len() > 0 {
        lemma_bp_total_nonneg(cs.drop_last());
    }
}

// ---------------------------------------------------------------------
// The payout rule
// ---------------------------------------------------------------------

/// The proportional share of `balance` for `bp` basis points, rounded down.
pub open spec fn share(balance: int, bp: int) -> int {
    balance * bp / 10000
}

/// Sum of the proportional shares of the first `n` collaborators.
pub open spec fn shares_before(balance: int, cs: Seq<CollaboratorView>, n: int) -> int
    decreases n,
{
    if n <= 0 {
        0
    } else {
        shares_before(balance, cs, n - 1) + share(balance, cs[n - 1].basis_points as int)
    }
}

/// What collaborator `i` is paid out of `balance`: its proportional share,
/// except the last collaborator, who receives whatever the others leave.
pub open spec fn payout(balance: int, cs: Seq<CollaboratorView>, i: int) -> int {
    if i == cs.len() - 1 {
        balance - shares_before(balance, cs, cs.len() - 1)
    } else {
        share(balance, cs[i].basis_points as int)
    }
}

/// Sum of the payouts of the first `n` collaborators.
pub open spec fn payouts_before(balance: int, cs: Seq<CollaboratorView>, n: int) -> int
    decreases n,
{
    if n <= 0 {
        0
    } else {
        payouts_before(balance, cs, n - 1) + payout(balance, cs, n - 1)
    }
}

/// Every proportional share fits in `i128` arithmetic.
pub open spec fn shares_in_range(balance: int, cs: Seq<CollaboratorView>) -> bool {
    forall|i: int| 0 <= i < cs.len() - 1 ==> balance * (#[trigger] cs[i]).basis_points <= i128::MAX
}

pub proof fn lemma_share_bounds(balance: int, bp: int)
    requires
        balance >= 0,
        bp >= 0,
    ensures
        0 <= share(balance, bp),
        share(balance, bp) * 10000 <= balance * bp,
{
    assert(balance * bp >= 0) by (nonlinear_arith)
        requires
            balance >= 0,
            bp >= 0,
    ;
    let x = balance * bp;
    assert(x / 10000 >= 0 && (x / 10000) * 10000 <= x) by (nonlinear_arith)
        requires
            x >= 0,
    ;
}

/// The shares of a prefix never exceed that prefix's part of the balance.
pub proof fn lemma_shares_before_bound(balance: int, cs: Seq<CollaboratorView>, n: int)
    requires
        balance >= 0,
        0 <= n <= cs.len(),
    ensures
        0 <= shares_before(balance, cs, n),
        shares_before(balance, cs, n) * 10000 <= balance * bp_total(cs.take(n)),
    decreases n,
{
    if n == 0 {
        assert(cs.take(0) =~= Seq::<CollaboratorView>::empty());
    } else {
        lemma_shares_before_bound(balance, cs, n - 1);
        lemma_take_step(cs, n - 1);
        lemma_share_bounds(balance, cs[n - 1].basis_points as int);
        let a = bp_total(cs.take(n - 1));
        let b = cs[n - 1].basis_points as int;
        assert(balance * (a + b) == balance * a + balance * b) by (nonlinear_arith);
    }
}

/// In a valid split, the last collaborator receives at least its own
/// proportional share, and a positive amount out of a positive balance.
pub proof fn lemma_last_payout(balance: int, cs: Seq<CollaboratorView>)
    requires
        valid_split(cs),
        balance >= 0,
    ensures
        payout(balance, cs, cs.len() - 1) >= share(balance, cs[cs.len() - 1].basis_points as int),
        share(balance, cs[cs.len() - 1].basis_points as int) >= 0,
        balance > 0 ==> payout(balance, cs, cs.len() - 1) > 0,
{
    let n = cs.len() - 1;
    lemma_shares_before_bound(balance, cs, n);
    lemma_take_step(cs, n);
    assert(cs.take(n + 1) =~= cs);
    let last = cs[n].basis_points as int;
    let rest = bp_total(cs.take(n));
    assert(!has_flaw(cs, n));
    lemma_share_bounds(balance, last);
    let s = shares_before(balance, cs, n);
    // s * 10000 <= balance * rest and rest + last == 10000
    assert(balance * rest + balance * last == balance * 10000) by (nonlinear_arith)
        requires
            rest + last == 10000,
    ;
    assert((balance - s) * 10000 >= balance * last);
    assert(balance - s >= share(balance, last)) by (nonlinear_arith)
        requires
            (balance - s) * 10000 >= balance * last,
            share(balance, last) * 10000 <= balance * last,
    ;
    if balance > 0 {
        assert(balance * last >= 1) by (nonlinear_arith)
            requires
                balance >= 1,
                last >= 1,
        ;
    }
}

/// The payouts of all collaborators add up to exactly the balance.
pub proof fn lemma_payouts_total(balance: int, cs: Seq<CollaboratorView>)
    requires
        cs.len() >= 1,
    ensures
        payouts_before(balance, cs, cs.len() as int) == balance,
{
    lemma_payouts_match_shares(balance, cs, cs.len() - 1);
}

pub proof fn lemma_payouts_match_shares(balance: int, cs: Seq<CollaboratorView>, n: int)
    requires
        0 <= n <= cs.len() - 1,
    ensures
        payouts_before(balance, cs, n) == shares_before(balance, cs, n),
    decreases n,
{
    if n > 0 {
        lemma_payouts_match_shares(balance, cs, n - 1);
    }
}

/// Splits `balance` among `collaborators` by the payout rule.
pub fn split_balance(balance: i128, collaborators: &Vec<Collaborator>) -> (amounts: Vec<i128>)
    requires
        valid_split(collaborators_view(collaborators@)),
        balance >= 0,
        shares_in_range(balance as int, collaborators_view(collaborators@)),
    ensures
        amounts@.len() == collaborators@.len(),
        forall|i: int| 0 <= i < amounts@.len()
            ==> #[trigger] amounts@[i] == payout(balance as int, collaborators_view(collaborators@), i),
{
    let ghost cs = collaborators_view(collaborators@);
    let n: usize = collaborators.len();
    let last: usize = n - 1;
    let mut amounts: Vec<i128> = Vec::new();
    let mut total_sent: i128 = 0;
    proof {
        lemma_last_payout(balance as int, cs);
    }
    for i in 0..n
        invariant
            n == collaborators@.len(),
            cs == collaborators_view(collaborators@),
            valid_split(cs),
            last == n - 1,
            balance >= 0,
            shares_in_range(balance as int, cs),
            amounts@.len() == i,
            forall|j: int| 0 <= j < i ==> #[trigger] amounts@[j] == payout(balance as int, cs, j),
            i <= last ==> total_sent == shares_before(balance as int, cs, i as int),
            0 <= total_sent <= balance,
    {
        assert(cs[i as int] == collaborators@[i as int]@);
        let amount: i128 = if i == last {
            balance - total_sent
        } else {
            let bp: i128 = collaborators[i].basis_points as i128;
            assert(balance * bp <= i128::MAX);
            assert(balance * bp >= 0) by (nonlinear_arith)
                requires
                    balance >= 0,
                    bp >= 0,
            ;
            (balance * bp) / 10000
        };
        amounts.push(amount);
        if i < last {
            proof {
                lemma_shares_before_bound(balance as int, cs, i + 1);
                lemma_bp_total_prefix(cs, i + 1);
                let t = bp_total(cs.take(i + 1));
                assert(balance * t <= balance * 10000) by (nonlinear_arith)
                    requires
                        balance >= 0,
                        t <= 10000,
                ;
            }
            total_sent = total_sent + amount;
        }
    }
    amounts
}

/// Every payout is at least 0, and the payouts of any prefix of the
/// collaborators add up to at most the balance.
pub proof fn lemma_payout_range(balance: int, cs: Seq<CollaboratorView>)
    requires
        valid_split(cs),
        balance >= 0,
    ensures
        forall|i: int| 0 <= i < cs.len() ==> #[trigger] payout(balance, cs, i) >= 0,
        forall|n: int| 0 <= n <= cs.len() ==> 0 <= #[trigger] payouts_before(balance, cs, n) <= balance,
{
    lemma_last_payout(balance, cs);
    assert forall|i: int| 0 <= i < cs.len() implies #[trigger] payout(balance, cs, i) >= 0 by {
        if i < cs.len() - 1 {
            lemma_share_bounds(balance, cs[i].basis_points as int);
        }
    }
    assert forall|n: int| 0 <= n <= cs.len() implies 0 <= #[trigger] payouts_before(balance, cs, n) <= balance by {
        if n == cs.len() {
            lemma_payouts_total(balance, cs);
        } else {
            lemma_payouts_match_shares(balance, cs, n);
            lemma_shares_before_bound(balance, cs, n);
            lemma_bp_total_prefix(cs, n);
            let t = bp_total(cs.take(n));
            assert(balance * t <= balance * 10000) by (nonlinear_arith)
                requires
                    balance >= 0,
                    t <= 10000,
            ;
        }
    }
}

/// What the first `n` collaborators with address `a` are paid in total.
pub open spec fn paid_before(balance: int, cs: Seq<CollaboratorView>, a: Seq<char>, n: int) -> int
    decreases n,
{
    if n <= 0 {
        0
    } else {
        paid_before(balance, cs, a, n - 1) + if cs[n - 1].address == a {
            payout(balance, cs, n - 1)
        } else {
            0
        }
    }
}

/// What address `a` is paid when `balance` is split among `cs`.
pub open spec fn paid_to(balance: int, cs: Seq<CollaboratorView>, a: Seq<char>) -> int {
    paid_before(balance, cs, a, cs.len() as int)
}

/// The transfers of a distribution among the first `n` collaborators, in
/// order: one per collaborator whose payout is positive.
pub open spec fn payout_plan(balance: int, cs: Seq<CollaboratorView>, n: int) -> Seq<(Seq<char>, int)>
    decreases n,
{
    if n <= 0 {
        Seq::empty()
    } else if payout(balance, cs, n - 1) > 0 {
        payout_plan(balance, cs, n - 1).push((cs[n - 1].address, payout(balance, cs, n - 1)))
    } else {
        payout_plan(balance, cs, n - 1)
    }
}

/// Sum of the amounts of a list of transfers.
pub open spec fn plan_total(plan: Seq<(Seq<char>, int)>) -> int
    decreases plan.len(),
{
    if plan.len() == 0 {
        0
    } else {
        plan_total(plan.drop_last()) + plan.last().1
    }
}

/// In a valid split, the address of collaborator `i` is paid exactly
/// collaborator `i`'s payout, and an address outside the split nothing.
pub proof fn lemma_paid_to(balance: int, cs: Seq<CollaboratorView>, a: Seq<char>, n: int)
    requires
        valid_split(cs),
        0 <= n <= cs.len(),
    ensures
        forall|i: int| 0 <= i < n && cs[i].address == a ==> paid_before(balance, cs, a, n) == #[trigger] payout(balance, cs, i),
        (forall|i: int| 0 <= i < n ==> #[trigger] cs[i].address != a) ==> paid_before(balance, cs, a, n) == 0,
    decreases n,
{
    if n > 0 {
        lemma_paid_to(balance, cs, a, n - 1);
        if cs[n - 1].address == a {
            assert forall|i: int| 0 <= i < n - 1 implies #[trigger] cs[i].address != a by {
                assert(!has_flaw(cs, n - 1));
                if cs[i].address == a {
                    assert(cs[i].address == cs[n - 1].address);
                    assert(has_duplicate(cs, n - 1));
                }
            }
        }
    }
}

/// The transfers of a distribution add up to exactly the balance.
pub proof fn lemma_plan_total(balance: int, cs: Seq<CollaboratorView>, n: int)
    requires
        valid_split(cs),
        balance >= 0,
        0 <= n <= cs.len(),
    ensures
        plan_total(payout_plan(balance, cs, n)) == payouts_before(balance, cs, n),
    decreases n,
{
    if n > 0 {
        lemma_plan_total(balance, cs, n - 1);
        lemma_payout_range(balance, cs);
        assert(payout(balance, cs, n - 1) >= 0);
        let prev = payout_plan(balance, cs, n - 1);
        if payout(balance, cs, n - 1) > 0 {
            let next = prev.push((cs[n - 1].address, payout(balance, cs, n - 1)));
            assert(next.drop_last() =~= prev);
        }
    }
}
} // verus!
