use vstd::prelude::*;

use crate::split::{
    has_duplicate, has_flaw, is_valid_split, lemma_paid_to, lemma_payout_range, paid_before,
    payout, payout_plan, payouts_before, shares_in_range, split_balance, valid_split,
    validation_result,
};
use crate::types::{
    collaborators_view, payouts_view, Collaborator, CollaboratorView, Payout, SplitError,
    SplitProject, SplitProjectView,
};

verus! {

/// The contract's persistent storage, as mathematical maps: projects and
/// their distributable balances by project id, amounts claimed by
/// (project id, address), and the number of projects created.
#[verifier::ext_equal]
pub struct LedgerView {
    pub projects: Map<Seq<char>, SplitProjectView>,
    pub balances: Map<Seq<char>, int>,
    pub claimed: Map<(Seq<char>, Seq<char>), int>,
    pub project_count: nat,
}

/// A stored project is filed under its own id, has a valid split and a
/// balance that is not negative.
pub open spec fn stored_project_ok(v: LedgerView, k: Seq<char>) -> bool {
    &&& v.projects[k].project_id == k
    &&& valid_split(v.projects[k].collaborators)
    &&& v.balances.contains_key(k)
    &&& v.balances[k] >= 0
}

impl LedgerView {
    /// What the contract keeps true of its storage: every project has a
    /// balance and every balance a project, every stored project is well
    /// formed (`stored_project_ok`), and finitely many claims are recorded.
    pub open spec fn consistent(self) -> bool {
        &&& self.claimed.dom().finite()
        &&& forall|k: Seq<char>| #[trigger] self.balances.contains_key(k) ==> self.projects.contains_key(k)
        &&& forall|k: Seq<char>| #[trigger] self.projects.contains_key(k) ==> stored_project_ok(self, k)
    }

    /// What `address` has been paid for project `project_id`: 0 when nothing.
    pub open spec fn claimed_amount(self, project_id: Seq<char>, address: Seq<char>) -> int {
        if self.claimed.contains_key((project_id, address)) {
            self.claimed[(project_id, address)]
        } else {
            0
        }
    }
}

/// `v` with project `p` stored under its id, with balance `balance`.
pub open spec fn with_project(v: LedgerView, p: SplitProjectView, balance: int) -> LedgerView {
    LedgerView {
        projects: v.projects.insert(p.project_id, p),
        balances: v.balances.insert(p.project_id, balance),
        ..v
    }
}

/// `v` with `amount` stored as the claim of `address` on `project_id`.
pub open spec fn with_claim(v: LedgerView, project_id: Seq<char>, address: Seq<char>, amount: int) -> LedgerView {
    LedgerView { claimed: v.claimed.insert((project_id, address), amount), ..v }
}

/// `v` with project count `count`.
pub open spec fn with_count(v: LedgerView, count: nat) -> LedgerView {
    LedgerView { project_count: count, ..v }
}

/// Storage record of one project and its distributable balance.
struct ProjectRecord {
    project: SplitProject,
    balance: i128,
}

/// Storage record of what one address was paid for one project.
struct ClaimRecord {
    project_id: String,
    address: String,
    amount: i128,
}

spec fn rkey(r: ProjectRecord) -> Seq<char> {
    r.project.project_id@
}

spec fn ckey(c: ClaimRecord) -> (Seq<char>, Seq<char>) {
    (c.project_id@, c.address@)
}

spec fn record_stored(r: ProjectRecord, v: LedgerView) -> bool {
    &&& v.projects.contains_key(rkey(r))
    &&& v.projects[rkey(r)] == r.project@
    &&& v.balances.contains_key(rkey(r))
    &&& v.balances[rkey(r)] == r.balance as int
}

spec fn records_match(rs: Seq<ProjectRecord>, v: LedgerView) -> bool {
    &&& forall|i: int| 0 <= i < rs.len() ==> record_stored(#[trigger] rs[i], v)
    &&& forall|k: Seq<char>| #[trigger] v.projects.contains_key(k)
        ==> exists|i: int| 0 <= i < rs.len() && rkey(#[trigger] rs[i]) == k
    &&& forall|i: int, j: int|
        #![trigger rs[i], rs[j]]
        0 <= i < rs.len() && 0 <= j < rs.len() && rkey(rs[i]) == rkey(rs[j]) ==> i == j
}

spec fn claims_match(cs: Seq<ClaimRecord>, m: Map<(Seq<char>, Seq<char>), int>) -> bool {
    &&& forall|i: int| 0 <= i < cs.len()
        ==> m.contains_key(ckey(#[trigger] cs[i])) && m[ckey(cs[i])] == cs[i].amount as int
    &&& forall|k: (Seq<char>, Seq<char>)| #[trigger] m.contains_key(k)
        ==> exists|i: int| 0 <= i < cs.len() && ckey(#[trigger] cs[i]) == k
    &&& forall|i: int, j: int|
        #![trigger cs[i], cs[j]]
        0 <= i < cs.len() && 0 <= j < cs.len() && ckey(cs[i]) == ckey(cs[j]) ==> i == j
}

spec fn with_record(v: LedgerView, r: ProjectRecord) -> LedgerView {
    LedgerView {
        projects: v.projects.insert(rkey(r), r.project@),
        balances: v.balances.insert(rkey(r), r.balance as int),
        ..v
    }
}

proof fn lemma_push_record(rs: Seq<ProjectRecord>, v: LedgerView, r: ProjectRecord)
    requires
        records_match(rs, v),
        !v.projects.contains_key(rkey(r)),
    ensures
        records_match(rs.push(r), with_record(v, r)),
{
    let nrs = rs.push(r);
    let nv = with_record(v, r);
    assert forall|i: int| 0 <= i < nrs.len() implies record_stored(#[trigger] nrs[i], nv) by {
        if i < rs.len() {
            assert(nrs[i] == rs[i]);
            assert(record_stored(rs[i], v));
        }
    }
    assert forall|k: Seq<char>| #[trigger] nv.projects.contains_key(k)
        implies exists|i: int| 0 <= i < nrs.len() && rkey(#[trigger] nrs[i]) == k by {
        if k == rkey(r) {
            assert(rkey(nrs[rs.len() as int]) == k);
        } else {
            assert(v.projects.contains_key(k));
            let i = choose|i: int| 0 <= i < rs.len() && rkey(#[trigger] rs[i]) == k;
            assert(nrs[i] == rs[i]);
        }
    }
    assert forall|i: int, j: int|
        #![trigger nrs[i], nrs[j]]
        0 <= i < nrs.len() && 0 <= j < nrs.len() && rkey(nrs[i]) == rkey(nrs[j]) implies i == j by {
        if i < rs.len() {
            assert(record_stored(rs[i], v));
        }
        if j < rs.len() {
            assert(record_stored(rs[j], v));
        }
        if i < rs.len() && j < rs.len() {
            assert(nrs[i] == rs[i] && nrs[j] == rs[j]);
        }
    }
}

proof fn lemma_records_same_maps(rs: Seq<ProjectRecord>, v1: LedgerView, v2: LedgerView)
    requires
        records_match(rs, v1),
        v1.projects == v2.projects,
        v1.balances == v2.balances,
    ensures
        records_match(rs, v2),
{
    assert forall|i: int| 0 <= i < rs.len() implies record_stored(#[trigger] rs[i], v2) by {
        assert(record_stored(rs[i], v1));
    }
}

proof fn lemma_set_record(rs: Seq<ProjectRecord>, v: LedgerView, n: int, r: ProjectRecord)
    requires
        records_match(rs, v),
        0 <= n < rs.len(),
        rkey(r) == rkey(rs[n]),
    ensures
        records_match(rs.update(n, r), with_record(v, r)),
{
    let nrs = rs.update(n, r);
    let nv = with_record(v, r);
    assert(record_stored(rs[n], v));
    assert forall|i: int| 0 <= i < nrs.len() implies record_stored(#[trigger] nrs[i], nv) by {
        if i != n {
            assert(nrs[i] == rs[i]);
            assert(record_stored(rs[i], v));
            assert(rkey(rs[i]) != rkey(rs[n]));
        }
    }
    assert forall|k: Seq<char>| #[trigger] nv.projects.contains_key(k)
        implies exists|i: int| 0 <= i < nrs.len() && rkey(#[trigger] nrs[i]) == k by {
        if k == rkey(r) {
            assert(rkey(nrs[n]) == k);
        } else {
            assert(v.projects.contains_key(k));
            let i = choose|i: int| 0 <= i < rs.len() && rkey(#[trigger] rs[i]) == k;
            assert(i != n);
            assert(nrs[i] == rs[i]);
        }
    }
    assert forall|i: int, j: int|
        #![trigger nrs[i], nrs[j]]
        0 <= i < nrs.len() && 0 <= j < nrs.len() && rkey(nrs[i]) == rkey(nrs[j]) implies i == j by {
        if i != n && j != n {
            assert(nrs[i] == rs[i] && nrs[j] == rs[j]);
        } else if i != n {
            assert(nrs[i] == rs[i]);
        } else if j != n {
            assert(nrs[j] == rs[j]);
        }
    }
}

proof fn lemma_push_claim(cs: Seq<ClaimRecord>, m: Map<(Seq<char>, Seq<char>), int>, c: ClaimRecord)
    requires
        claims_match(cs, m),
        !m.contains_key(ckey(c)),
    ensures
        claims_match(cs.push(c), m.insert(ckey(c), c.amount as int)),
{
    let ncs = cs.push(c);
    let nm = m.insert(ckey(c), c.amount as int);
    assert forall|i: int| 0 <= i < ncs.len()
        implies nm.contains_key(ckey(#[trigger] ncs[i])) && nm[ckey(ncs[i])] == ncs[i].amount as int by {
        if i < cs.len() {
            assert(ncs[i] == cs[i]);
            assert(m.contains_key(ckey(cs[i])));
        }
    }
    assert forall|k: (Seq<char>, Seq<char>)| #[trigger] nm.contains_key(k)
        implies exists|i: int| 0 <= i < ncs.len() && ckey(#[trigger] ncs[i]) == k by {
        if k == ckey(c) {
            assert(ckey(ncs[cs.len() as int]) == k);
        } else {
            assert(m.contains_key(k));
            let i = choose|i: int| 0 <= i < cs.len() && ckey(#[trigger] cs[i]) == k;
            assert(ncs[i] == cs[i]);
        }
    }
    assert forall|i: int, j: int|
        #![trigger ncs[i], ncs[j]]
        0 <= i < ncs.len() && 0 <= j < ncs.len() && ckey(ncs[i]) == ckey(ncs[j]) implies i == j by {
        if i < cs.len() {
            assert(ncs[i] == cs[i]);
            assert(m.contains_key(ckey(cs[i])));
        }
        if j < cs.len() {
            assert(ncs[j] == cs[j]);
            assert(m.contains_key(ckey(cs[j])));
        }
    }
}

proof fn lemma_set_claim(cs: Seq<ClaimRecord>, m: Map<(Seq<char>, Seq<char>), int>, n: int, c: ClaimRecord)
    requires
        claims_match(cs, m),
        0 <= n < cs.len(),
        ckey(c) == ckey(cs[n]),
    ensures
        claims_match(cs.update(n, c), m.insert(ckey(c), c.amount as int)),
{
    let ncs = cs.update(n, c);
    let nm = m.insert(ckey(c), c.amount as int);
    assert forall|i: int| 0 <= i < ncs.len()
        implies nm.contains_key(ckey(#[trigger] ncs[i])) && nm[ckey(ncs[i])] == ncs[i].amount as int by {
        if i != n {
            assert(ncs[i] == cs[i]);
            assert(m.contains_key(ckey(cs[i])));
            assert(ckey(cs[i]) != ckey(cs[n]));
        }
    }
    assert forall|k: (Seq<char>, Seq<char>)| #[trigger] nm.contains_key(k)
        implies exists|i: int| 0 <= i < ncs.len() && ckey(#[trigger] ncs[i]) == k by {
        if k == ckey(c) {
            assert(ckey(ncs[n]) == k);
        } else {
            assert(m.contains_key(k));
            let i = choose|i: int| 0 <= i < cs.len() && ckey(#[trigger] cs[i]) == k;
            assert(i != n);
            assert(ncs[i] == cs[i]);
        }
    }
    assert forall|i: int, j: int|
        #![trigger ncs[i], ncs[j]]
        0 <= i < ncs.len() && 0 <= j < ncs.len() && ckey(ncs[i]) == ckey(ncs[j]) implies i == j by {
        if i != n && j != n {
            assert(ncs[i] == cs[i] && ncs[j] == cs[j]);
        } else if i != n {
            assert(ncs[i] == cs[i]);
        } else if j != n {
            assert(ncs[j] == cs[j]);
        }
    }
}

/// Position of the claim record for `(project_id, address)`, if any.
fn find_claim(
    claims: &Vec<ClaimRecord>,
    Ghost(m): Ghost<Map<(Seq<char>, Seq<char>), int>>,
    project_id: &String,
    address: &String,
) -> (res: Option<usize>)
    requires
        claims_match(claims@, m),
    ensures
        match res {
            Some(i) => i < claims@.len() && ckey(claims@[i as int]) == (project_id@, address@),
            None => !m.contains_key((project_id@, address@)),
        },
{
    let n: usize = claims.len();
    for i in 0..n
        invariant
            n == claims@.len(),
            claims_match(claims@, m),
            forall|j: int| 0 <= j < i ==> ckey(#[trigger] claims@[j]) != (project_id@, address@),
    {
        if claims[i].project_id == *project_id && claims[i].address == *address {
            return Some(i);
        }
    }
    proof {
        if m.contains_key((project_id@, address@)) {
            let j = choose|j: int| 0 <= j < claims@.len() && ckey(#[trigger] claims@[j]) == (project_id@, address@);
            assert(ckey(claims@[j]) != (project_id@, address@));
        }
    }
    None
}

/// Adds `amount` to what `address` was paid for `project_id`.
fn add_claim(
    claims: &mut Vec<ClaimRecord>,
    Ghost(m): Ghost<Map<(Seq<char>, Seq<char>), int>>,
    project_id: &String,
    address: &String,
    amount: i128,
)
    requires
        claims_match(old(claims)@, m),
        amount_in(m, (project_id@, address@)) + amount <= i128::MAX,
        amount_in(m, (project_id@, address@)) + amount >= i128::MIN,
    ensures
        claims_match(
            final(claims)@,
            m.insert((project_id@, address@), amount_in(m, (project_id@, address@)) + amount),
        ),
{
    match find_claim(claims, Ghost(m), project_id, address) {
        Some(i) => {
            let prev: i128 = claims[i].amount;
            assert(m.contains_key(ckey(claims@[i as int])));
            let rec = ClaimRecord {
                project_id: project_id.clone(),
                address: address.clone(),
                amount: prev + amount,
            };
            proof {
                lemma_set_claim(claims@, m, i as int, rec);
            }
            claims.set(i, rec);
        },
        None => {
            let rec = ClaimRecord {
                project_id: project_id.clone(),
                address: address.clone(),
                amount: amount,
            };
            proof {
                lemma_push_claim(claims@, m, rec);
            }
            claims.push(rec);
        },
    }
}

/// The value stored under `k`, 0 when there is none.
pub open spec fn amount_in(m: Map<(Seq<char>, Seq<char>), int>, k: (Seq<char>, Seq<char>)) -> int {
    if m.contains_key(k) {
        m[k]
    } else {
        0
    }
}

/// The SplitNaira contract: its storage and the operations on it.
pub struct SplitNairaContract {
    records: Vec<ProjectRecord>,
    claims: Vec<ClaimRecord>,
    project_count: u32,
    state: Ghost<LedgerView>,
}

impl View for SplitNairaContract {
    type V = LedgerView;

    closed spec fn view(&self) -> LedgerView {
        self.state@
    }
}

impl SplitNairaContract {
    /// The storage records agree with the view, and the view is consistent.
    pub closed spec fn wf(&self) -> bool {
        &&& records_match(self.records@, self.state@)
        &&& claims_match(self.claims@, self.state@.claimed)
        &&& self.state@.project_count == self.project_count as nat
        &&& self.state@.consistent()
    }

    /// A well-formed contract's storage is consistent.
    pub proof fn lemma_wf_consistent(&self)
        requires
            self.wf(),
        ensures
            self@.consistent(),
            self@.project_count <= u32::MAX,
    {
    }

    /// Position of the record of `project_id`, if any.
    fn find_project(&self, project_id: &String) -> (res: Option<usize>)
        requires
            self.wf(),
        ensures
            match res {
                Some(i) => {
                    &&& i < self.records@.len()
                    &&& rkey(self.records@[i as int]) == project_id@
                    &&& self@.projects.contains_key(project_id@)
                    &&& self@.projects[project_id@] == self.records@[i as int].project@
                    &&& self@.balances[project_id@] == self.records@[i as int].balance as int
                },
                None => !self@.projects.contains_key(project_id@),
            },
    {
        let n: usize = self.records.len();
        for i in 0..n
            invariant
                n == self.records@.len(),
                self.wf(),
                forall|j: int| 0 <= j < i ==> rkey(#[trigger] self.records@[j]) != project_id@,
        {
            if self.records[i].project.project_id == *project_id {
                assert(record_stored(self.records@[i as int], self@));
                return Some(i);
            }
        }
        proof {
            if self@.projects.contains_key(project_id@) {
                let j = choose|j: int| 0 <= j < self.records@.len() && rkey(#[trigger] self.records@[j]) == project_id@;
                assert(rkey(self.records@[j]) != project_id@);
            }
        }
        None
    }

    /// Empty storage: no projects, no claims, a project count of 0.
    pub fn new() -> (res: Self)
        ensures
            res.wf(),
            res@.projects == Map::<Seq<char>, SplitProjectView>::empty(),
            res@.balances == Map::<Seq<char>, int>::empty(),
            res@.claimed == Map::<(Seq<char>, Seq<char>), int>::empty(),
            res@.project_count == 0,
    {
        SplitNairaContract {
            records: Vec::new(),
            claims: Vec::new(),
            project_count: 0,
            state: Ghost(
                LedgerView {
                    projects: Map::empty(),
                    balances: Map::empty(),
                    claimed: Map::empty(),
                    project_count: 0,
                },
            ),
        }
    }

    /// Puts a stored project and its balance into storage. It is taken
    /// exactly when no project has its id, its split is valid and the
    /// balance is not negative; otherwise storage is left as it was.
    pub fn load_project(&mut self, project: SplitProject, balance: i128) -> (accepted: bool)
        requires
            old(self).wf(),
        ensures
            final(self).wf(),
            accepted == (!old(self)@.projects.contains_key(project@.project_id)
                && valid_split(project@.collaborators) && balance >= 0),
            accepted ==> final(self)@ == with_project(old(self)@, project@, balance as int),
            !accepted ==> final(self)@ == old(self)@,
    {
        if balance < 0 || !is_valid_split(&project.collaborators) {
            return false;
        }
        if self.find_project(&project.project_id).is_some() {
            return false;
        }
        let ghost old_v = self@;
        let rec = ProjectRecord { project, balance };
        proof {
            lemma_push_record(self.records@, old_v, rec);
        }
        self.records.push(rec);
        self.state = Ghost(with_record(old_v, rec));
        proof {
            let nv = self@;
            assert forall|k: Seq<char>| #[trigger] nv.projects.contains_key(k)
                implies stored_project_ok(nv, k) by {
                if k != rkey(rec) {
                    assert(old_v.projects.contains_key(k));
                    assert(stored_project_ok(old_v, k));
                }
            }
            assert forall|k: Seq<char>| #[trigger] nv.balances.contains_key(k)
                implies nv.projects.contains_key(k) by {
                if k != rkey(rec) {
                    assert(old_v.balances.contains_key(k));
                }
            }
        }
        true
    }

    /// Puts a stored claim into storage; taken exactly when none is stored
    /// for the same project and address.
    pub fn load_claim(&mut self, project_id: String, address: String, amount: i128) -> (accepted: bool)
        requires
            old(self).wf(),
        ensures
            final(self).wf(),
            accepted == !old(self)@.claimed.contains_key((project_id@, address@)),
            accepted ==> final(self)@ == with_claim(old(self)@, project_id@, address@, amount as int),
            !accepted ==> final(self)@ == old(self)@,
    {
        let ghost old_v = self@;
        if find_claim(&self.claims, Ghost(old_v.claimed), &project_id, &address).is_some() {
            return false;
        }
        let rec = ClaimRecord { project_id, address, amount };
        proof {
            lemma_push_claim(self.claims@, old_v.claimed, rec);
        }
        self.claims.push(rec);
        self.state = Ghost(LedgerView { claimed: old_v.claimed.insert(ckey(rec), amount as int), ..old_v });
        true
    }

    /// Sets the stored project count.
    pub fn load_project_count(&mut self, count: u32)
        requires
            old(self).wf(),
        ensures
            final(self).wf(),
            final(self)@ == with_count(old(self)@, count as nat),
    {
        self.project_count = count;
        let ghost old_v = self@;
        self.state = Ghost(LedgerView { project_count: count as nat, ..old_v });
    }

    /// The project stored under `project_id`, or `NotFound`.
    fn get_project_or_err(&self, project_id: &String) -> (res: Result<SplitProject, SplitError>)
        requires
            self.wf(),
        ensures
            match res {
                Ok(p) => self@.projects.contains_key(project_id@) && p@ == self@.projects[project_id@],
                Err(e) => !self@.projects.contains_key(project_id@) && e == SplitError::NotFound,
            },
    {
        match self.find_project(project_id) {
            Some(i) => Ok(self.records[i].project.clone()),
            None => Err(SplitError::NotFound),
        }
    }

    /// The full project stored under `project_id`.
    pub fn get_project(&self, project_id: String) -> (res: Option<SplitProject>)
        requires
            self.wf(),
        ensures
            match res {
                Some(p) => self@.projects.contains_key(project_id@) && p@ == self@.projects[project_id@],
                None => !self@.projects.contains_key(project_id@),
            },
    {
        match self.get_project_or_err(&project_id) {
            Ok(p) => Some(p),
            Err(_) => None,
        }
    }

    /// How much `address` has been paid for `project_id` (0 when nothing).
    pub fn get_claimed(&self, project_id: String, address: String) -> (res: i128)
        requires
            self.wf(),
        ensures
            res as int == self@.claimed_amount(project_id@, address@),
    {
        match find_claim(&self.claims, Ghost(self@.claimed), &project_id, &address) {
            Some(i) => {
                assert(self@.claimed.contains_key(ckey(self.claims@[i as int])));
                self.claims[i].amount
            },
            None => 0,
        }
    }

    /// The number of projects created.
    pub fn get_project_count(&self) -> (res: u32)
        requires
            self.wf(),
        ensures
            res as nat == self@.project_count,
    {
        self.project_count
    }

    /// The distributable balance of `project_id`, or `NotFound`.
    pub fn get_balance(&self, project_id: String) -> (res: Result<i128, SplitError>)
        requires
            self.wf(),
        ensures
            match res {
                Ok(b) => self@.projects.contains_key(project_id@) && b as int == self@.balances[project_id@],
                Err(e) => !self@.projects.contains_key(project_id@) && e == SplitError::NotFound,
            },
    {
        match self.find_project(&project_id) {
            Some(i) => Ok(self.records[i].balance),
            None => Err(SplitError::NotFound),
        }
    }
}


// ---------------------------------------------------------------------
// What each operation answers and leaves behind
// ---------------------------------------------------------------------

/// The project a successful `create_project` stores.
pub open spec fn new_project_view(
    owner: Seq<char>,
    project_id: Seq<char>,
    title: Seq<char>,
    project_type: Seq<char>,
    token: Seq<char>,
    collaborators: Seq<CollaboratorView>,
) -> SplitProjectView {
    SplitProjectView {
        project_id,
        title,
        project_type,
        token,
        owner,
        collaborators,
        locked: false,
        total_distributed: 0,
        distribution_round: 0,
    }
}

/// Answer of `create_project`: an existing id first, then the split's verdict.
pub open spec fn create_result(v: LedgerView, project_id: Seq<char>, cs: Seq<CollaboratorView>) -> Result<(), SplitError> {
    if v.projects.contains_key(project_id) {
        Err(SplitError::ProjectExists)
    } else {
        validation_result(cs)
    }
}

/// Storage after a successful `create_project`: the new project with a zero
/// balance, and one more project counted.
pub open spec fn created(v: LedgerView, p: SplitProjectView) -> LedgerView {
    with_count(with_project(v, p, 0), v.project_count + 1)
}

/// Answer of `check_owner`: the project must exist and belong to `owner`.
pub open spec fn owner_result(v: LedgerView, project_id: Seq<char>, owner: Seq<char>) -> Result<(), SplitError> {
    if !v.projects.contains_key(project_id) {
        Err(SplitError::NotFound)
    } else if v.projects[project_id].owner != owner {
        Err(SplitError::Unauthorized)
    } else {
        Ok(())
    }
}

/// Answer of `update_collaborators`: ownership, then the lock, then the split.
pub open spec fn update_result(
    v: LedgerView,
    project_id: Seq<char>,
    owner: Seq<char>,
    cs: Seq<CollaboratorView>,
) -> Result<(), SplitError> {
    if owner_result(v, project_id, owner) is Err {
        owner_result(v, project_id, owner)
    } else if v.projects[project_id].locked {
        Err(SplitError::ProjectLocked)
    } else {
        validation_result(cs)
    }
}

/// Storage with the collaborators of `project_id` replaced by `cs`.
pub open spec fn with_collaborators(v: LedgerView, project_id: Seq<char>, cs: Seq<CollaboratorView>) -> LedgerView {
    with_project(
        v,
        SplitProjectView { collaborators: cs, ..v.projects[project_id] },
        v.balances[project_id],
    )
}

/// Answer of `lock_project`: ownership, then whether it is locked already.
pub open spec fn lock_result(v: LedgerView, project_id: Seq<char>, owner: Seq<char>) -> Result<(), SplitError> {
    if owner_result(v, project_id, owner) is Err {
        owner_result(v, project_id, owner)
    } else if v.projects[project_id].locked {
        Err(SplitError::AlreadyLocked)
    } else {
        Ok(())
    }
}

/// Storage with project `project_id` locked.
pub open spec fn with_lock(v: LedgerView, project_id: Seq<char>) -> LedgerView {
    with_project(
        v,
        SplitProjectView { locked: true, ..v.projects[project_id] },
        v.balances[project_id],
    )
}

/// Answer of `deposit`: a positive amount, then an existing project.
pub open spec fn deposit_result(v: LedgerView, project_id: Seq<char>, amount: int) -> Result<(), SplitError> {
    if amount <= 0 {
        Err(SplitError::InvalidAmount)
    } else if !v.projects.contains_key(project_id) {
        Err(SplitError::NotFound)
    } else {
        Ok(())
    }
}

/// Storage with `amount` added to the balance of `project_id`.
pub open spec fn deposited(v: LedgerView, project_id: Seq<char>, amount: int) -> LedgerView {
    LedgerView { balances: v.balances.insert(project_id, v.balances[project_id] + amount), ..v }
}

/// Answer of `distribute` when it fails: no such project, or nothing to pay.
pub open spec fn distribute_check(v: LedgerView, project_id: Seq<char>) -> Result<(), SplitError> {
    if !v.projects.contains_key(project_id) {
        Err(SplitError::NotFound)
    } else if v.balances[project_id] <= 0 {
        Err(SplitError::NoBalance)
    } else {
        Ok(())
    }
}

/// Claims after paying `balance` out among `cs` for `project_id`: every
/// address's claim on that project grows by what it is paid; a claim is
/// recorded for each address paid a positive amount.
pub open spec fn credited_claims(
    claimed: Map<(Seq<char>, Seq<char>), int>,
    project_id: Seq<char>,
    balance: int,
    cs: Seq<CollaboratorView>,
    n: int,
) -> Map<(Seq<char>, Seq<char>), int> {
    Map::new(
        |k: (Seq<char>, Seq<char>)|
            claimed.contains_key(k) || (k.0 == project_id && paid_before(balance, cs, k.1, n) > 0),
        |k: (Seq<char>, Seq<char>)|
            amount_in(claimed, k) + if k.0 == project_id {
                paid_before(balance, cs, k.1, n)
            } else {
                0
            },
    )
}

/// Storage after a successful `distribute`: the whole balance is paid out,
/// so it drops to 0, the project's total grows by it, the round count by
/// one, and each collaborator's claim by its payout.
pub open spec fn distributed(v: LedgerView, project_id: Seq<char>) -> LedgerView {
    let p = v.projects[project_id];
    let b = v.balances[project_id];
    LedgerView {
        projects: v.projects.insert(
            project_id,
            SplitProjectView {
                total_distributed: p.total_distributed + b,
                distribution_round: (p.distribution_round + 1) as u32,
                ..p
            },
        ),
        balances: v.balances.insert(project_id, 0),
        claimed: credited_claims(v.claimed, project_id, b, p.collaborators, p.collaborators.len() as int),
        project_count: v.project_count,
    }
}

/// A distribution of `project_id` keeps all its arithmetic within range:
/// the proportional shares, every claim it grows, the project's total and
/// its round count.
pub open spec fn distribution_in_range(v: LedgerView, project_id: Seq<char>) -> bool {
    let p = v.projects[project_id];
    let b = v.balances[project_id];
    let cs = p.collaborators;
    distribute_check(v, project_id) is Ok ==> {
        &&& shares_in_range(b, cs)
        &&& forall|i: int| 0 <= i < cs.len() && payout(b, cs, i) > 0
            ==> v.claimed_amount(project_id, cs[i].address) + #[trigger] payout(b, cs, i) <= i128::MAX
        &&& p.total_distributed + b <= i128::MAX
        &&& p.distribution_round < u32::MAX
    }
}

proof fn lemma_consistent_with_project(v: LedgerView, p: SplitProjectView, b: int)
    requires
        v.consistent(),
        valid_split(p.collaborators),
        b >= 0,
    ensures
        with_project(v, p, b).consistent(),
{
    let nv = with_project(v, p, b);
    assert forall|k: Seq<char>| #[trigger] nv.projects.contains_key(k) implies stored_project_ok(nv, k) by {
        if k != p.project_id {
            assert(v.projects.contains_key(k));
            assert(stored_project_ok(v, k));
        }
    }
    assert forall|k: Seq<char>| #[trigger] nv.balances.contains_key(k) implies nv.projects.contains_key(k) by {
        if k != p.project_id {
            assert(v.balances.contains_key(k));
        }
    }
}

pub proof fn lemma_credit_step(
    claimed: Map<(Seq<char>, Seq<char>), int>,
    project_id: Seq<char>,
    balance: int,
    cs: Seq<CollaboratorView>,
    n: int,
)
    requires
        valid_split(cs),
        balance >= 0,
        0 <= n < cs.len(),
    ensures
        payout(balance, cs, n) > 0 ==> credited_claims(claimed, project_id, balance, cs, n + 1) == credited_claims(
            claimed,
            project_id,
            balance,
            cs,
            n,
        ).insert(
            (project_id, cs[n].address),
            amount_in(credited_claims(claimed, project_id, balance, cs, n), (project_id, cs[n].address))
                + payout(balance, cs, n),
        ),
        payout(balance, cs, n) <= 0 ==> credited_claims(claimed, project_id, balance, cs, n + 1)
            == credited_claims(claimed, project_id, balance, cs, n),
        amount_in(credited_claims(claimed, project_id, balance, cs, n), (project_id, cs[n].address))
            == amount_in(claimed, (project_id, cs[n].address)),
{
    let a = cs[n].address;
    lemma_paid_to(balance, cs, a, n);
    assert forall|i: int| 0 <= i < n implies #[trigger] cs[i].address != a by {
        assert(!has_flaw(cs, n));
        if cs[i].address == a {
            assert(has_duplicate(cs, n));
        }
    }
    assert(paid_before(balance, cs, a, n) == 0);
    lemma_payout_range(balance, cs);
    let m0 = credited_claims(claimed, project_id, balance, cs, n);
    let m1 = credited_claims(claimed, project_id, balance, cs, n + 1);
    if payout(balance, cs, n) > 0 {
        assert(m1 =~= m0.insert((project_id, a), amount_in(m0, (project_id, a)) + payout(balance, cs, n)));
    } else {
        assert(m1 =~= m0);
    }
}

impl SplitNairaContract {
    /// Creates a project owned by `owner` under `project_id`, with a zero
    /// balance, and counts it.
    pub fn create_project(
        &mut self,
        owner: String,
        project_id: String,
        title: String,
        project_type: String,
        token: String,
        collaborators: Vec<Collaborator>,
    ) -> (res: Result<(), SplitError>)
        requires
            old(self).wf(),
            !old(self)@.projects.contains_key(project_id@) && valid_split(collaborators_view(collaborators@))
                ==> old(self)@.project_count < u32::MAX,
        ensures
            final(self).wf(),
            res == create_result(old(self)@, project_id@, collaborators_view(collaborators@)),
            res is Ok ==> final(self)@ == created(
                old(self)@,
                new_project_view(owner@, project_id@, title@, project_type@, token@, collaborators_view(collaborators@)),
            ),
            res is Err ==> final(self)@ == old(self)@,
    {
        if self.find_project(&project_id).is_some() {
            return Err(SplitError::ProjectExists);
        }
        match Self::validate_collaborators(&collaborators) {
            Err(e) => {
                return Err(e);
            },
            Ok(()) => {},
        }
        let project = SplitProject {
            project_id,
            title,
            project_type,
            token,
            owner,
            collaborators,
            locked: false,
            total_distributed: 0,
            distribution_round: 0,
        };
        let ghost old_v = self@;
        let rec = ProjectRecord { project, balance: 0 };
        proof {
            lemma_push_record(self.records@, old_v, rec);
            lemma_consistent_with_project(old_v, rec.project@, 0);
        }
        self.records.push(rec);
        self.project_count = self.project_count + 1;
        self.state = Ghost(created(old_v, rec.project@));
        Ok(())
    }

    /// Whether `owner` owns the existing project `project_id`.
    pub fn check_owner(&self, project_id: &String, owner: &String) -> (res: Result<(), SplitError>)
        requires
            self.wf(),
        ensures
            res == owner_result(self@, project_id@, owner@),
    {
        let project = match self.get_project_or_err(project_id) {
            Ok(p) => p,
            Err(e) => {
                return Err(e);
            },
        };
        if !(project.owner == *owner) {
            return Err(SplitError::Unauthorized);
        }
        Ok(())
    }

    /// Replaces the collaborators of an unlocked project; only its owner may.
    pub fn update_collaborators(
        &mut self,
        project_id: String,
        owner: String,
        collaborators: Vec<Collaborator>,
    ) -> (res: Result<(), SplitError>)
        requires
            old(self).wf(),
        ensures
            final(self).wf(),
            res == update_result(old(self)@, project_id@, owner@, collaborators_view(collaborators@)),
            res is Ok ==> final(self)@ == with_collaborators(old(self)@, project_id@, collaborators_view(collaborators@)),
            res is Err ==> final(self)@ == old(self)@,
    {
        let i = match self.find_project(&project_id) {
            Some(i) => i,
            None => {
                return Err(SplitError::NotFound);
            },
        };
        if !(self.records[i].project.owner == owner) {
            return Err(SplitError::Unauthorized);
        }
        if self.records[i].project.locked {
            return Err(SplitError::ProjectLocked);
        }
        match Self::validate_collaborators(&collaborators) {
            Err(e) => {
                return Err(e);
            },
            Ok(()) => {},
        }
        let ghost old_v = self@;
        let mut project = self.records[i].project.clone();
        project.collaborators = collaborators;
        let rec = ProjectRecord { project, balance: self.records[i].balance };
        proof {
            lemma_set_record(self.records@, old_v, i as int, rec);
            lemma_consistent_with_project(old_v, rec.project@, rec.balance as int);
            assert(rec.project@ == SplitProjectView {
                collaborators: collaborators_view(collaborators@),
                ..old_v.projects[project_id@]
            });
        }
        self.records.set(i, rec);
        self.state = Ghost(with_record(old_v, rec));
        Ok(())
    }

    /// Locks a project so its split can no longer change; only its owner may.
    pub fn lock_project(&mut self, project_id: String, owner: String) -> (res: Result<(), SplitError>)
        requires
            old(self).wf(),
        ensures
            final(self).wf(),
            res == lock_result(old(self)@, project_id@, owner@),
            res is Ok ==> final(self)@ == with_lock(old(self)@, project_id@),
            res is Err ==> final(self)@ == old(self)@,
    {
        let i = match self.find_project(&project_id) {
            Some(i) => i,
            None => {
                return Err(SplitError::NotFound);
            },
        };
        if !(self.records[i].project.owner == owner) {
            return Err(SplitError::Unauthorized);
        }
        if self.records[i].project.locked {
            return Err(SplitError::AlreadyLocked);
        }
        let ghost old_v = self@;
        let mut project = self.records[i].project.clone();
        project.locked = true;
        let rec = ProjectRecord { project, balance: self.records[i].balance };
        proof {
            lemma_set_record(self.records@, old_v, i as int, rec);
            assert(stored_project_ok(old_v, project_id@));
            lemma_consistent_with_project(old_v, rec.project@, rec.balance as int);
        }
        self.records.set(i, rec);
        self.state = Ghost(with_record(old_v, rec));
        Ok(())
    }

    /// Credits `amount` to the distributable balance of `project_id`.
    pub fn deposit(&mut self, project_id: String, amount: i128) -> (res: Result<(), SplitError>)
        requires
            old(self).wf(),
            deposit_result(old(self)@, project_id@, amount as int) is Ok
                ==> old(self)@.balances[project_id@] + amount <= i128::MAX,
        ensures
            final(self).wf(),
            res == deposit_result(old(self)@, project_id@, amount as int),
            res is Ok ==> final(self)@ == deposited(old(self)@, project_id@, amount as int),
            res is Err ==> final(self)@ == old(self)@,
    {
        if amount <= 0 {
            return Err(SplitError::InvalidAmount);
        }
        let i = match self.find_project(&project_id) {
            Some(i) => i,
            None => {
                return Err(SplitError::NotFound);
            },
        };
        let ghost old_v = self@;
        let prev_balance: i128 = self.records[i].balance;
        let project = self.records[i].project.clone();
        let rec = ProjectRecord { project, balance: prev_balance + amount };
        proof {
            lemma_set_record(self.records@, old_v, i as int, rec);
            assert(stored_project_ok(old_v, project_id@));
            lemma_consistent_with_project(old_v, rec.project@, rec.balance as int);
            assert(with_record(old_v, rec).projects =~= old_v.projects);
            assert(with_record(old_v, rec) =~= deposited(old_v, project_id@, amount as int));
        }
        self.records.set(i, rec);
        self.state = Ghost(with_record(old_v, rec));
        Ok(())
    }
}

/// The transfers a successful `distribute` of `project_id` makes.
pub open spec fn distribution_plan(v: LedgerView, project_id: Seq<char>) -> Seq<(Seq<char>, int)> {
    let cs = v.projects[project_id].collaborators;
    payout_plan(v.balances[project_id], cs, cs.len() as int)
}

impl SplitNairaContract {
    /// Pays out the whole balance of `project_id` among its collaborators:
    /// each gets its proportional share, rounded down, and the last one the
    /// remainder. Returns the transfers owed, in collaborator order, one per
    /// positive amount. Anyone may call it.
    pub fn distribute(&mut self, project_id: String) -> (res: Result<Vec<Payout>, SplitError>)
        requires
            old(self).wf(),
            distribution_in_range(old(self)@, project_id@),
        ensures
            final(self).wf(),
            match res {
                Ok(ps) => {
                    &&& distribute_check(old(self)@, project_id@) is Ok
                    &&& payouts_view(ps@) == distribution_plan(old(self)@, project_id@)
                    &&& final(self)@ == distributed(old(self)@, project_id@)
                },
                Err(e) => {
                    &&& distribute_check(old(self)@, project_id@) == Err::<(), SplitError>(e)
                    &&& final(self)@ == old(self)@
                },
            },
    {
        let i = match self.find_project(&project_id) {
            Some(i) => i,
            None => {
                return Err(SplitError::NotFound);
            },
        };
        let balance: i128 = self.records[i].balance;
        if balance <= 0 {
            return Err(SplitError::NoBalance);
        }
        let ghost old_v = self@;
        let ghost old_records = self.records@;
        let ghost b = balance as int;
        let ghost cs = old_v.projects[project_id@].collaborators;
        proof {
            assert(stored_project_ok(old_v, project_id@));
            lemma_payout_range(b, cs);
        }
        let amounts = split_balance(balance, &self.records[i].project.collaborators);
        let n: usize = amounts.len();
        let mut payouts: Vec<Payout> = Vec::new();
        let mut total_sent: i128 = 0;
        for j in 0..n
            invariant
                n == cs.len(),
                amounts@.len() == n,
                forall|t: int| 0 <= t < n ==> #[trigger] amounts@[t] == payout(b, cs, t),
                self.records@ == old_records,
                i < old_records.len(),
                old_records[i as int].project@ == old_v.projects[project_id@],
                cs == old_v.projects[project_id@].collaborators,
                valid_split(cs),
                b >= 0,
                b == balance as int,
                self.project_count as nat == old_v.project_count,
                distribution_in_range(old_v, project_id@),
                distribute_check(old_v, project_id@) is Ok,
                b == old_v.balances[project_id@],
                forall|t: int| 0 <= t < cs.len() ==> #[trigger] payout(b, cs, t) >= 0,
                forall|t: int| 0 <= t <= cs.len() ==> 0 <= #[trigger] payouts_before(b, cs, t) <= b,
                claims_match(self.claims@, credited_claims(old_v.claimed, project_id@, b, cs, j as int)),
                payouts_view(payouts@) == payout_plan(b, cs, j as int),
                total_sent == payouts_before(b, cs, j as int),
        {
            let amount: i128 = amounts[j];
            proof {
                lemma_credit_step(old_v.claimed, project_id@, b, cs, j as int);
                assert(cs[j as int] == old_records[i as int].project.collaborators@[j as int]@);
                assert(payouts_before(b, cs, j + 1) == total_sent + amount);
                assert(total_sent + amount <= b);
            }
            if amount > 0 {
                let address = self.records[i].project.collaborators[j].address.clone();
                proof {
                    assert(payout(b, cs, j as int) > 0);
                    assert(old_v.claimed_amount(project_id@, cs[j as int].address) + payout(b, cs, j as int) <= i128::MAX);
                }
                add_claim(
                    &mut self.claims,
                    Ghost(credited_claims(old_v.claimed, project_id@, b, cs, j as int)),
                    &project_id,
                    &address,
                    amount,
                );
                let ghost before = payouts@;
                payouts.push(Payout { address, amount });
                proof {
                    assert(payouts_view(payouts@) =~= payouts_view(before).push((cs[j as int].address, amount as int)));
                }
                total_sent = total_sent + amount;
            }
        }
        proof {
            crate::split::lemma_payouts_total(b, cs);
        }
        let mut project = self.records[i].project.clone();
        project.total_distributed = project.total_distributed + total_sent;
        project.distribution_round = project.distribution_round + 1;
        let rec = ProjectRecord { project, balance: balance - total_sent };
        proof {
            lemma_set_record(self.records@, old_v, i as int, rec);
            lemma_consistent_with_project(old_v, rec.project@, 0);
        }
        self.records.set(i, rec);
        let ghost nv = distributed(old_v, project_id@);
        proof {
            assert(rec.project@ == nv.projects[project_id@]);
            assert(with_record(old_v, rec).projects =~= nv.projects);
            assert(with_record(old_v, rec).balances =~= nv.balances);
            lemma_records_same_maps(self.records@, with_record(old_v, rec), nv);
            crate::claims::lemma_credited_total(old_v.claimed, project_id@, b, cs, cs.len() as int, project_id@);
            assert(nv.consistent());
        }
        self.state = Ghost(nv);
        Ok(payouts)
    }

    /// Whether a `distribute` of `project_id` stays within range
    /// (`distribution_in_range`); never fails itself.
    pub fn can_distribute(&self, project_id: &String) -> (res: bool)
        requires
            self.wf(),
        ensures
            res == distribution_in_range(self@, project_id@),
    {
        let i = match self.find_project(project_id) {
            Some(i) => i,
            None => {
                return true;
            },
        };
        let balance: i128 = self.records[i].balance;
        if balance <= 0 {
            return true;
        }
        let ghost v = self@;
        let ghost b = balance as int;
        let ghost cs = v.projects[project_id@].collaborators;
        proof {
            assert(stored_project_ok(v, project_id@));
        }
        let collaborators = &self.records[i].project.collaborators;
        let n: usize = collaborators.len();
        for j in 0..n - 1
            invariant
                n == cs.len(),
                n >= 2,
                cs == collaborators_view(collaborators@),
                v == self@,
                b == balance,
                b > 0,
                v.projects.contains_key(project_id@),
                v.balances[project_id@] == b,
                cs == v.projects[project_id@].collaborators,
                forall|t: int| 0 <= t < j ==> b * (#[trigger] cs[t]).basis_points <= i128::MAX,
        {
            assert(cs[j as int] == collaborators@[j as int]@);
            let bp: i128 = collaborators[j].basis_points as i128;
            assert(balance * bp >= 0) by (nonlinear_arith)
                requires
                    balance >= 0,
                    bp >= 0,
            ;
            if balance.checked_mul(bp).is_none() {
                assert(b * cs[j as int].basis_points > i128::MAX);
                assert(!shares_in_range(b, cs));
                return false;
            }
        }
        let amounts = split_balance(balance, collaborators);
        for j in 0..n
            invariant
                n == cs.len(),
                cs == collaborators_view(collaborators@),
                self.wf(),
                v == self@,
                b == balance,
                b > 0,
                v.projects.contains_key(project_id@),
                v.balances[project_id@] == b,
                cs == v.projects[project_id@].collaborators,
                amounts@.len() == n,
                forall|t: int| 0 <= t < n ==> #[trigger] amounts@[t] == payout(b, cs, t),
                forall|t: int| 0 <= t < j && payout(b, cs, t) > 0
                    ==> v.claimed_amount(project_id@, cs[t].address) + #[trigger] payout(b, cs, t) <= i128::MAX,
        {
            let amount: i128 = amounts[j];
            if amount > 0 {
                assert(cs[j as int] == collaborators@[j as int]@);
                let prev: i128 = self.get_claimed(project_id.clone(), collaborators[j].address.clone());
                if prev.checked_add(amount).is_none() {
                    assert(amount as int == payout(b, cs, j as int));
                    assert(prev as int == v.claimed_amount(project_id@, cs[j as int].address));
                    assert(v.claimed_amount(project_id@, cs[j as int].address) + payout(b, cs, j as int) > i128::MAX);
                    return false;
                }
            }
        }
        if self.records[i].project.total_distributed.checked_add(balance).is_none() {
            return false;
        }
        if self.records[i].project.distribution_round == u32::MAX {
            return false;
        }
        true
    }
}

} // verus!
