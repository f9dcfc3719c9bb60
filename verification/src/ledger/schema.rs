//! The tables of the ledger, and how older ledgers are brought up to date.

use vstd::prelude::*;

verus! {

/// The version of the tables below.
pub const SCHEMA_VERSION: &'static str = "3";

/// Creates the tables.
pub const SCHEMA: &'static str = r#"
CREATE TABLE meta (
  k TEXT PRIMARY KEY, v TEXT NOT NULL
);
CREATE TABLE eth_transfers (
  chain_id INTEGER NOT NULL, block_number INTEGER NOT NULL, block_hash TEXT NOT NULL,
  tx_hash TEXT, trace_path TEXT NOT NULL, address TEXT NOT NULL,
  direction TEXT NOT NULL, counterparty TEXT NOT NULL, amount_wei TEXT NOT NULL,
  kind TEXT NOT NULL, reverted INTEGER NOT NULL,
  PRIMARY KEY (chain_id, block_hash, tx_hash, trace_path)
);
CREATE TABLE erc20_transfers (
  chain_id INTEGER NOT NULL, block_number INTEGER NOT NULL, block_hash TEXT NOT NULL,
  tx_hash TEXT NOT NULL, log_index INTEGER NOT NULL, token TEXT NOT NULL,
  from_addr TEXT NOT NULL, to_addr TEXT NOT NULL, amount TEXT NOT NULL,
  address TEXT NOT NULL, direction TEXT NOT NULL,
  PRIMARY KEY (chain_id, block_hash, tx_hash, log_index, address)
);
CREATE TABLE gas_payments (
  chain_id INTEGER NOT NULL, block_number INTEGER NOT NULL, block_hash TEXT NOT NULL,
  tx_hash TEXT NOT NULL, address TEXT NOT NULL, gas_used INTEGER NOT NULL,
  effective_gas_price TEXT NOT NULL, l2_fee_wei TEXT NOT NULL,
  l1_fee_wei TEXT, total_wei TEXT NOT NULL,
  PRIMARY KEY (chain_id, block_hash, tx_hash, address)
);
CREATE TABLE unattributed_deltas (
  chain_id INTEGER NOT NULL, block_number INTEGER NOT NULL, block_hash TEXT NOT NULL,
  address TEXT NOT NULL, observed_wei TEXT NOT NULL,
  attributed_wei TEXT NOT NULL, residual_wei TEXT NOT NULL,
  cause TEXT NOT NULL,
  PRIMARY KEY (chain_id, block_hash, address)
);
CREATE INDEX ix_eth_addr   ON eth_transfers   (chain_id, address, block_number);
CREATE INDEX ix_erc20_addr ON erc20_transfers (chain_id, address, block_number);
CREATE INDEX ix_gas_addr   ON gas_payments    (chain_id, address, block_number);
CREATE INDEX ix_eth_bh     ON eth_transfers   (block_hash);
CREATE INDEX ix_erc20_bh   ON erc20_transfers (block_hash);
CREATE INDEX ix_gas_bh     ON gas_payments    (block_hash);
CREATE INDEX ix_unattr_bh  ON unattributed_deltas (block_hash);
"#;

/// From version 1 to version 2: the address becomes part of the key of a token
/// transfer, so that a transfer between two watched addresses keeps both rows.
pub const MIGRATE_V1_TO_V2: &'static str = r#"
CREATE TABLE erc20_transfers_v2 (
  chain_id INTEGER NOT NULL, block_number INTEGER NOT NULL, block_hash TEXT NOT NULL,
  tx_hash TEXT NOT NULL, log_index INTEGER NOT NULL, token TEXT NOT NULL,
  from_addr TEXT NOT NULL, to_addr TEXT NOT NULL, amount TEXT NOT NULL,
  address TEXT NOT NULL, direction TEXT NOT NULL,
  PRIMARY KEY (chain_id, block_hash, tx_hash, log_index, address)
);
INSERT INTO erc20_transfers_v2
  SELECT chain_id, block_number, block_hash, tx_hash, log_index, token,
         from_addr, to_addr, amount, address, direction
    FROM erc20_transfers;
DROP TABLE erc20_transfers;
ALTER TABLE erc20_transfers_v2 RENAME TO erc20_transfers;
CREATE INDEX ix_erc20_addr ON erc20_transfers (chain_id, address, block_number);
CREATE INDEX ix_erc20_bh   ON erc20_transfers (block_hash);
"#;

/// From version 2 to version 3: an unattributed change gets a cause. Rows from
/// before count as unexplained residuals.
pub const MIGRATE_V2_TO_V3: &'static str = r#"
ALTER TABLE unattributed_deltas
  ADD COLUMN cause TEXT NOT NULL DEFAULT 'unexplained_residual';
"#;

} // verus!
