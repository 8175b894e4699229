# stake_bot

The decision logic of a bot that manages delegated stake on a Solana cluster, with its
contracts proved by Verus.

- `src/` is the library.
  - `db`: the classification of validators in an epoch, the limits of the score, and the
    search for the classification of an earlier epoch; `epoch_files` names its files.
  - `send`: sending transactions until each is confirmed, as a state machine that names
    the next action and takes the event that answers it; `send_laws` proves what holds of
    every run; `fees` computes what the transactions cost.
  - `vote_accounts`, `stake_accounts`, `inflation`: what the replies of a node say of
    validators, of their stake and of their rewards. `warmup` tells when the sum of what
    becomes effective of a stake stays within 64 bits.
  - `keys`, `batches`, `decimal`, `totals`: what the others are built on.
  - `outside`: the calls into other crates, each with the contract that is taken on trust.
- `tests/` runs the library, together with the crates it calls.
- `app/` is ordinary Rust around the library: files, the connection to a node, floating
  point. It needs the crate `solana_client`, beside those of `Cargo.toml`.

Functions whose name starts with `law_` state what holds of several functions together.
