# primed

The pool side of DATUM mining with TIDES payouts: a sliding window of verified work, the split of
a block among the identities in it, and the checks a share has to pass before it is credited.
`src/` is verified with Verus; `app/` is the daemon around it.

| Modules | What they hold |
|---|---|
| `tides`, `split`, `capped`, `ledger`, `records` | the share window, the split with fees and carry-forward, the split under a cap on payees, what goes to disk and how it is read back, block records |
| `pow`, `coinbase`, `mining`, `verify`, `classify` | targets and header hashes, the coinbase format, a share's fields, share verification, where a coinbase sends the reward |
| `slots`, `issue`, `seen`, `session`, `blocks`, `frame` | one gateway's job slots and their budget, coinbasers and the snapshot they commit to, share hashes seen, what a session decides, block candidates, frames |
| `snapshot`, `json`, `reading`, `stats`, `http` | the canonical window snapshot, that its text determines what it was written of, the published numbers and their routes |
| `address`, `ip`, `controls`, `state`, `startup` | payout addresses, networks and bans, runtime controls, connection and worker tables, what is checked at start |
| `bytes`, `base16`, `text`, `names`, `digest`, `coinbaser` | byte strings, hexadecimal, texts, maps by name, the two hash functions, issued outputs |

Each function's contract says what it returns or changes over the views of its types. Properties
that span functions are public proof functions next to them: that a share is credited once, ever;
that a split and the list it dictates pay out exactly the value; that a restart reloads the same
window, or does so once the credit file is rewritten where the window's target has grown; that what a session can make the pool hold stays within its budget.

Calls into other crates stand behind a few functions marked `external_body`, each with what is
taken for granted of the call: `bech32`, `bs58`, `sha2`, `blake2`, `hex` and `serde_json`.

`app/` reads `prime.toml`, the data directory and the sockets, and hands plain values to the
library. The DATUM handshake and encryption come from a transport that implements
`wire::Wire`; a build without one refuses every gateway.
