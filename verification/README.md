# split_naira

Verified core of the SplitNaira royalty-split contract for Stellar/Soroban.

- `src/types.rs`: collaborators, projects, payouts, errors, and their views.
- `src/split.rs`: validation of a collaborator split and the payout rule
  (proportional shares rounded down, remainder to the last collaborator),
  with the lemmas behind them.
- `src/contract.rs`: `SplitNairaContract`, the contract's persistent storage
  (projects, balances, claims, project count) as a verified model, and every
  contract operation on it with an exact contract.
- `src/claims.rs`: the sum of the claims recorded on a project, and how
  operations change it.
- `src/laws.rs`: properties of the contract as a whole: distributions pay
  out exactly the balance, shares are proportional, operations on one project
  leave the others untouched, locked splits never change, balances are
  deposits minus payouts, claims add up to the total distributed, and
  validation does not depend on the order of the collaborators.
- `app/`: the Soroban contract itself. It loads the storage entries a call
  needs into the model, runs the verified operation, writes the result back,
  and performs what only the host can: authorization, token transfers and
  events.
