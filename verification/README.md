# trx_processor

A transaction engine for client accounts, verified with Verus.

A feed of deposits, withdrawals, disputes, resolutions and chargebacks is read
from CSV, either record by record or by the two-letter type prefix of each
line (found with an Aho-Corasick automaton), and applied to balances kept in
an ordered byte store. The result is a report of each client's available,
held and total funds and whether the account is locked.

- `src/types.rs`: the domain values and their big-endian byte encodings.
- `src/store.rs`: the ordered key/value store and its typed reads and writes.
- `src/transactions.rs`: the engine, as a step function over the store's
  contents, the report, and the laws of the engine.
- `src/parser/`: the CSV record reader (`csv.rs`), the prefix reader
  (`corasick.rs`), byte fields (`fields.rs`) and decimal text (`text.rs`).
- `src/feed.rs`: feed lines of disputes, resolutions and chargebacks.
- `app/`: the program: reading files and arguments, the serde reading of CSV
  records, and a random feed generator (`--generate`).
