# cw_rewards

A rewards contract for CosmWasm chains: contracts register rewards (token
amounts, an optional number of claims, a message, an expiration), grant them
to wallets, revoke or pause them; wallets claim what they were granted, and the
contract sends each rewarding contract a claim message with the amounts to pay
while keeping per-wallet totals of what was granted and claimed.

- `src/` is the verified library. The whole contract state is a value
  (`state::ContractState`) viewed as maps (`state::StateView`); each message is
  a function on it whose contract is the model in its module
  (`execute::*::*_all`, `execute::claim_rewards::claim_all`), and the queries
  return exactly the page that `query::is_desc_page` describes;
  `contract::query` dispatches a query message to them.
  `laws.rs` proves what holds across messages.
- `app/` is the CosmWasm contract around it: entry points, storage through
  `cw-storage-plus`, serialization, the selection of stored fields through
  the repository loader, and conversions of addresses, amounts and times into
  plain values.
- `tests/` runs the library on concrete states.
