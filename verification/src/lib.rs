//! Verified core of the SplitNaira royalty-split contract: validation of
//! collaborator splits, the proportional payout rule, and the contract's
//! storage with its operations.

mod claims;
mod behaviour;
mod contract;
mod laws;
mod split;
mod types;

pub use contract::{LedgerView, SplitNairaContract};
pub use split::{is_valid_split, split_balance};
pub use types::{
    clone_collaborators, Collaborator, CollaboratorView, Payout, SplitError, SplitProject,
    SplitProjectView,
};
