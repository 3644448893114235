use vstd::prelude::*;

use crate::contract::{amount_in, credited_claims, lemma_credit_step};
use crate::split::{lemma_payout_range, payouts_before, valid_split};
use crate::types::CollaboratorView;

verus! {

/// Adds to a running total what claim `k` contributes to project `project_id`.
pub open spec fn claim_adder(
    m: Map<(Seq<char>, Seq<char>), int>,
    project_id: Seq<char>,
) -> spec_fn(int, (Seq<char>, Seq<char>)) -> int {
    |acc: int, k: (Seq<char>, Seq<char>)| acc + if k.0 == project_id {
        m[k]
    } else {
        0
    }
}

/// Sum of all claims recorded on project `project_id`.
pub open spec fn claims_total(m: Map<(Seq<char>, Seq<char>), int>, project_id: Seq<char>) -> int {
    m.dom().fold(0, claim_adder(m, project_id))
}

proof fn lemma_adder_commutative(m: Map<(Seq<char>, Seq<char>), int>, project_id: Seq<char>)
    ensures
        vstd::set::fold::is_fun_commutative(claim_adder(m, project_id)),
{
}

/// The sum only depends on the claims of the project.
proof fn lemma_fold_agree(
    s: Set<(Seq<char>, Seq<char>)>,
    m1: Map<(Seq<char>, Seq<char>), int>,
    m2: Map<(Seq<char>, Seq<char>), int>,
    project_id: Seq<char>,
)
    requires
        s.finite(),
        forall|k: (Seq<char>, Seq<char>)| #[trigger] s.contains(k) && k.0 == project_id ==> m1[k] == m2[k],
    ensures
        s.fold(0, claim_adder(m1, project_id)) == s.fold(0, claim_adder(m2, project_id)),
    decreases s.len(),
{
    lemma_adder_commutative(m1, project_id);
    lemma_adder_commutative(m2, project_id);
    if s.len() == 0 {
        assert(s =~= Set::<(Seq<char>, Seq<char>)>::empty());
        vstd::set::fold::lemma_fold_empty(0, claim_adder(m1, project_id));
        vstd::set::fold::lemma_fold_empty(0, claim_adder(m2, project_id));
    } else {
        let a = s.choose();
        let r = s.remove(a);
        lemma_fold_agree(r, m1, m2, project_id);
        assert(r.insert(a) =~= s);
        vstd::set::fold::lemma_fold_insert(r, 0, claim_adder(m1, project_id), a);
        vstd::set::fold::lemma_fold_insert(r, 0, claim_adder(m2, project_id), a);
    }
}

/// A set none of whose keys belongs to the project sums to 0.
proof fn lemma_fold_zero(
    s: Set<(Seq<char>, Seq<char>)>,
    m: Map<(Seq<char>, Seq<char>), int>,
    project_id: Seq<char>,
)
    requires
        s.finite(),
        forall|k: (Seq<char>, Seq<char>)| #[trigger] s.contains(k) ==> k.0 != project_id,
    ensures
        s.fold(0, claim_adder(m, project_id)) == 0,
    decreases s.len(),
{
    lemma_adder_commutative(m, project_id);
    if s.len() == 0 {
        assert(s =~= Set::<(Seq<char>, Seq<char>)>::empty());
        vstd::set::fold::lemma_fold_empty(0, claim_adder(m, project_id));
    } else {
        let a = s.choose();
        let r = s.remove(a);
        lemma_fold_zero(r, m, project_id);
        assert(r.insert(a) =~= s);
        vstd::set::fold::lemma_fold_insert(r, 0, claim_adder(m, project_id), a);
    }
}

/// With no claim recorded on a project, its claims sum to 0.
pub proof fn lemma_no_claims(m: Map<(Seq<char>, Seq<char>), int>, project_id: Seq<char>)
    requires
        m.dom().finite(),
        forall|k: (Seq<char>, Seq<char>)| #[trigger] m.contains_key(k) ==> k.0 != project_id,
    ensures
        claims_total(m, project_id) == 0,
{
    lemma_fold_zero(m.dom(), m, project_id);
}

/// Storing `val` under `key` changes the project's sum by the change of
/// that claim, when it belongs to the project.
pub proof fn lemma_total_insert(
    m: Map<(Seq<char>, Seq<char>), int>,
    project_id: Seq<char>,
    key: (Seq<char>, Seq<char>),
    val: int,
)
    requires
        m.dom().finite(),
    ensures
        m.insert(key, val).dom().finite(),
        claims_total(m.insert(key, val), project_id) == claims_total(m, project_id) + if key.0 == project_id {
            val - amount_in(m, key)
        } else {
            0
        },
{
    let m2 = m.insert(key, val);
    lemma_adder_commutative(m, project_id);
    lemma_adder_commutative(m2, project_id);
    let r = m.dom().remove(key);
    lemma_fold_agree(r, m, m2, project_id);
    assert(r.insert(key) =~= m2.dom());
    vstd::set::fold::lemma_fold_insert(r, 0, claim_adder(m2, project_id), key);
    if m.contains_key(key) {
        assert(r.insert(key) =~= m.dom());
        vstd::set::fold::lemma_fold_insert(r, 0, claim_adder(m, project_id), key);
    } else {
        assert(r =~= m.dom());
    }
}

/// Paying `balance` out among `cs` for project `p` adds exactly the
/// payouts to the claims of `p`, and nothing to those of another project.
pub proof fn lemma_credited_total(
    claimed: Map<(Seq<char>, Seq<char>), int>,
    p: Seq<char>,
    balance: int,
    cs: Seq<CollaboratorView>,
    n: int,
    project_id: Seq<char>,
)
    requires
        claimed.dom().finite(),
        valid_split(cs),
        balance >= 0,
        0 <= n <= cs.len(),
    ensures
        credited_claims(claimed, p, balance, cs, n).dom().finite(),
        claims_total(credited_claims(claimed, p, balance, cs, n), project_id) == claims_total(claimed, project_id)
            + if project_id == p {
            payouts_before(balance, cs, n)
        } else {
            0
        },
    decreases n,
{
    if n == 0 {
        assert(credited_claims(claimed, p, balance, cs, 0) =~= claimed);
    } else {
        lemma_credited_total(claimed, p, balance, cs, n - 1, project_id);
        lemma_credit_step(claimed, p, balance, cs, n - 1);
        lemma_payout_range(balance, cs);
        let prev = credited_claims(claimed, p, balance, cs, n - 1);
        let key = (p, cs[n - 1].address);
        lemma_total_insert(prev, project_id, key, amount_in(prev, key) + crate::split::payout(balance, cs, n - 1));
    }
}

} // verus!
