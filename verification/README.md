# Passbook

Passbook keeps the books of a small set of watched addresses on an Ethereum or
OP Stack chain. For every block it records

- token transfers in and out, from the logs of any contract; of one from a watched
  address to itself the ledger keeps the outgoing entry;
- native transfers in and out, those made by internal calls, creations and
  self-destructs included;
- the fees that watched senders paid, with the data fee of the base chain where
  there is one;
- the credits that a protocol makes without a call: withdrawals, block rewards,
  deposit mints and fee vaults.

A block is recorded as complete only if these add up to the observed change of
every watched balance. If they do not, bookkeeping halts at the block and tries
again; it never passes over one. Two kinds of blocks are recorded with markers
instead: where the state before a block cannot be read, its native movements are
not known, and every watched change that is left open is marked; a block that the
node never delivered is marked for every watched address.

## Layout

`src/` is the library, verified with [Verus](https://github.com/verus-lang/verus):

| Module | What it holds |
|--------|---------------|
| `primitives`, `text`, `watched` | 256-bit words, hashes, addresses, texts, the watched set |
| `model` | the rows |
| `inspector`, `reexec` | value frames captured while a block is replayed |
| `attribution`, `erc20`, `system`, `optimism` | what each source contributes |
| `reconcile`, `exex` | one block's sums, and what becomes of the block |
| `committed`, `chain`, `op_chain` | from a committed block to its rows |
| `ledger` | schema, statements, pages of rows, what is read back of what was written |
| `driver` | reorgs, gaps, retries and reports, as a state machine |
| `config`, `cli` | what the operator says |
| `laws`, `completeness`, `relevance` | what holds of the pipeline as a whole |

`tests/` runs the library, the ledger's statements on a real SQLite file.

`app/` is the node programs around it: flags, the SQLite file, JSON-RPC, and the
replay of blocks in the node's EVM. Nothing in it is verified.

## What is taken on trust

Arithmetic on 256-bit words, hexadecimal and decimal texts and EIP-55 checksums
come from `alloy-primitives`; the quoting of texts in messages comes from the
standard library. Each such call stands in a function of its own, in
`primitives` and `text`, whose contract says what is believed of it. What SQLite
does with a statement is modelled in `ledger::tables`.
