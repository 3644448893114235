use vstd::prelude::*;

verus! {

/// A collaborator in a royalty split.
pub struct Collaborator {
    /// Stellar address of the collaborator, in its textual (strkey) form.
    pub address: String,
    /// Human-readable alias.
    pub alias: String,
    /// Share in basis points (5000 = 50.00%).
    pub basis_points: u32,
}

/// Mathematical value of a [`Collaborator`].
pub struct CollaboratorView {
    pub address: Seq<char>,
    pub alias: Seq<char>,
    pub basis_points: u32,
}

impl View for Collaborator {
    type V = CollaboratorView;

    open spec fn view(&self) -> CollaboratorView {
        CollaboratorView {
            address: self.address@,
            alias: self.alias@,
            basis_points: self.basis_points,
        }
    }
}

/// The views of a sequence of collaborators, in order.
pub open spec fn collaborators_view(cs: Seq<Collaborator>) -> Seq<CollaboratorView> {
    cs.map_values(|c: Collaborator| c@)
}

impl Clone for Collaborator {
    fn clone(&self) -> (res: Self)
        ensures
            res@ == self@,
    {
        Collaborator {
            address: self.address.clone(),
            alias: self.alias.clone(),
            basis_points: self.basis_points,
        }
    }
}


/// Full metadata of a royalty split project.
pub struct SplitProject {
    /// Unique project identifier.
    pub project_id: String,
    /// Human-readable project title.
    pub title: String,
    /// Project category ("music", "film", ...).
    pub project_type: String,
    /// Address of the token contract the project is paid in.
    pub token: String,
    /// Address of the project owner.
    pub owner: String,
    /// All collaborators and their shares.
    pub collaborators: Vec<Collaborator>,
    /// Whether the split is locked (immutable).
    pub locked: bool,
    /// Total funds distributed so far.
    pub total_distributed: i128,
    /// Number of completed distribution rounds.
    pub distribution_round: u32,
}

/// Mathematical value of a [`SplitProject`].
pub struct SplitProjectView {
    pub project_id: Seq<char>,
    pub title: Seq<char>,
    pub project_type: Seq<char>,
    pub token: Seq<char>,
    pub owner: Seq<char>,
    pub collaborators: Seq<CollaboratorView>,
    pub locked: bool,
    pub total_distributed: int,
    pub distribution_round: u32,
}

impl View for SplitProject {
    type V = SplitProjectView;

    open spec fn view(&self) -> SplitProjectView {
        SplitProjectView {
            project_id: self.project_id@,
            title: self.title@,
            project_type: self.project_type@,
            token: self.token@,
            owner: self.owner@,
            collaborators: collaborators_view(self.collaborators@),
            locked: self.locked,
            total_distributed: self.total_distributed as int,
            distribution_round: self.distribution_round,
        }
    }
}

/// A copy of `cs` whose view is that of `cs`.
pub fn clone_collaborators(cs: &Vec<Collaborator>) -> (res: Vec<Collaborator>)
    ensures
        collaborators_view(res@) == collaborators_view(cs@),
{
    let mut res: Vec<Collaborator> = Vec::new();
    let n: usize = cs.len();
    for i in 0..n
        invariant
            n == cs@.len(),
            res@.len() == i,
            forall|j: int| 0 <= j < i ==> #[trigger] res@[j]@ == cs@[j]@,
    {
        res.push(cs[i].clone());
    }
    assert(collaborators_view(res@) =~= collaborators_view(cs@));
    res
}

impl Clone for SplitProject {
    fn clone(&self) -> (res: Self)
        ensures
            res@ == self@,
    {
        SplitProject {
            project_id: self.project_id.clone(),
            title: self.title.clone(),
            project_type: self.project_type.clone(),
            token: self.token.clone(),
            owner: self.owner.clone(),
            collaborators: clone_collaborators(&self.collaborators),
            locked: self.locked,
            total_distributed: self.total_distributed,
            distribution_round: self.distribution_round,
        }
    }
}

/// A transfer owed to a collaborator by a distribution.
pub struct Payout {
    /// Address of the collaborator paid.
    pub address: String,
    /// Amount paid, in the project's token.
    pub amount: i128,
}

/// The (address, amount) values of a list of payouts, in order.
pub open spec fn payouts_view(ps: Seq<Payout>) -> Seq<(Seq<char>, int)> {
    ps.map_values(|p: Payout| (p.address@, p.amount as int))
}

/// Errors returned by the contract operations.
#[derive(Clone, Copy, Debug, PartialEq, Eq, Structural)]
pub enum SplitError {
    ProjectExists,
    NotFound,
    Unauthorized,
    ProjectLocked,
    AlreadyLocked,
    InvalidSplit,
    TooFewCollaborators,
    ZeroShare,
    DuplicateCollaborator,
    InvalidAmount,
    NoBalance,
}

} // verus!
