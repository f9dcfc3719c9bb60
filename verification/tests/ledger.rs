use passbook::driver::{resume_head, BlockId};
use passbook::erc20::{transfer_topic0, RawLog};
use passbook::exex::{process_block, BlockInputs};
use passbook::ledger::open::{
    check_chain, opening_step, version_step, OpenAction, OpenEvent, VersionStep,
};
use passbook::ledger::queries::{
    block_rows_sql, category_str, first_rows_sql, get_transfers, health, more_rows_sql,
    transfers_query, FetchedRow, Health, TransfersPage, TransfersQuery,
};
use passbook::ledger::schema::{SCHEMA, SCHEMA_VERSION};
use passbook::ledger::tables::{SqlValue, Statement};
use passbook::ledger::writer::{
    delete_blocks, write_block, write_gap_block_marker, write_unattributed, BlockBatch,
};
use passbook::model::{
    Direction, Erc20TransferRow, EthKind, EthTransferRow, GasPaymentRow, UnattributedDeltaCause,
    UnattributedDeltaRow,
};
use passbook::primitives::{Address, B256, U256};
use passbook::watched::WatchedSet;
use rusqlite::types::Value;
use rusqlite::{params_from_iter, Connection, Row};
use std::collections::HashMap;
use std::path::Path;

fn address(byte: u8) -> Address {
    Address::from_bytes(&[byte; 20])
}

fn address_text(byte: u8) -> String {
    format!("0x{}", format!("{byte:02x}").repeat(20))
}

fn hash(byte: u8) -> B256 {
    B256::from_bytes(&[byte; 32])
}

fn hash_text(byte: u8) -> String {
    format!("0x{}", format!("{byte:02x}").repeat(32))
}

fn value(v: &SqlValue) -> Value {
    match v {
        SqlValue::Null => Value::Null,
        SqlValue::Unsigned(n) => Value::Integer(i64::try_from(*n).expect("fits")),
        SqlValue::Signed(n) => Value::Integer(*n),
        SqlValue::Text(t) => Value::Text(t.clone()),
    }
}

fn run(conn: &mut Connection, plan: Vec<Statement>) -> rusqlite::Result<()> {
    let tx = conn.transaction()?;
    for s in plan {
        let sql = s.sql();
        tx.execute(sql, params_from_iter(s.into_params().iter().map(value)))?;
    }
    tx.commit()
}

fn text(conn: &Connection, sql: &str) -> String {
    conn.query_row(sql, [], |r| r.get(0)).unwrap()
}

fn count(conn: &Connection, sql: &str) -> i64 {
    conn.query_row(sql, [], |r| r.get(0)).unwrap()
}

fn texts(conn: &Connection, sql: &str) -> Vec<String> {
    let mut s = conn.prepare(sql).unwrap();
    let rows = s.query_map([], |r| r.get::<_, String>(0)).unwrap();
    rows.map(|r| r.unwrap()).collect()
}

const VERSION: &str = "SELECT v FROM meta WHERE k='schema_version'";
const CHAIN: &str = "SELECT v FROM meta WHERE k='chain_id'";
const LAST_BLOCK: &str = "SELECT v FROM meta WHERE k='last_block'";
const LAST_HASH: &str = "SELECT v FROM meta WHERE k='last_block_hash'";

fn open(path: &Path, chain_id: u64) -> Result<Connection, String> {
    let mut conn = Connection::open(path).unwrap();
    conn.pragma_update(None, "journal_mode", "WAL").unwrap();
    let mut action = OpenAction::Find;
    loop {
        let event = match &action {
            OpenAction::Find => OpenEvent::Found(
                count(
                    &conn,
                    "SELECT count(*) FROM sqlite_master WHERE type='table' AND name='meta'",
                ) > 0,
            ),
            OpenAction::Create { version, chain } => {
                let note = |k: &str, v: &str| {
                    conn.execute("INSERT INTO meta(k,v) VALUES(?1,?2)", [k, v]).unwrap()
                };
                conn.execute_batch(SCHEMA).unwrap();
                note("schema_version", version);
                note("chain_id", chain);
                OpenEvent::Created
            }
            OpenAction::ReadVersion => OpenEvent::Version(text(&conn, VERSION)),
            OpenAction::Migrate { ddl, note } => {
                let tx = conn.transaction().unwrap();
                tx.execute_batch(ddl).unwrap();
                tx.execute(note, []).unwrap();
                tx.commit().unwrap();
                OpenEvent::Migrated
            }
            OpenAction::ReadChain => OpenEvent::Chain(text(&conn, CHAIN)),
            OpenAction::Finish => return Ok(conn),
            OpenAction::Refuse { message } => return Err(message.clone()),
        };
        action = opening_step(action, event, chain_id);
    }
}

fn ledger() -> (Connection, tempfile::TempDir) {
    let dir = tempfile::tempdir().unwrap();
    let l = open(&dir.path().join("l.db"), 1).unwrap();
    (l, dir)
}

fn meta(conn: &Connection, sql: &str) -> Option<String> {
    conn.query_row(sql, [], |r| r.get(0)).ok()
}

fn health_of(conn: &Connection) -> Health {
    health(&meta(conn, LAST_BLOCK), &meta(conn, CHAIN))
}

fn fetched(r: &Row) -> rusqlite::Result<FetchedRow> {
    Ok(FetchedRow {
        category: r.get(0)?,
        block_number: r.get(1)?,
        block_hash: r.get(2)?,
        tx_hash: r.get(3)?,
        address: r.get(4)?,
        direction: r.get(5)?,
        counterparty: r.get(6)?,
        token: r.get(7)?,
        amount: r.get(8)?,
        eth_kind: r.get(9)?,
    })
}

fn select(conn: &Connection, sql: &str, q: &TransfersQuery, n: i64) -> rusqlite::Result<Vec<FetchedRow>> {
    let mut s = conn.prepare(sql)?;
    let rows = s.query_map((q.chain_id, &q.address, q.lo, q.hi, q.want, n), fetched)?;
    rows.collect()
}

fn page(
    conn: &Connection,
    address: &str,
    from: Option<u64>,
    to: Option<u64>,
    kind: Option<&str>,
    cursor: Option<u64>,
    limit: u32,
) -> TransfersPage {
    get_transfers(
        1,
        address,
        from,
        to,
        kind,
        cursor,
        limit,
        |q: &TransfersQuery, n: i64| select(conn, &first_rows_sql(), q, n),
        |q: &TransfersQuery, cut: i64| select(conn, &block_rows_sql(), q, cut),
        |q: &TransfersQuery, cut: i64| {
            conn.query_row(
                &more_rows_sql(),
                (q.chain_id, &q.address, q.lo, q.hi, q.want, cut, q.hi),
                |r| r.get::<_, i64>(0),
            )
            .map(|n| n != 0)
        },
    )
    .unwrap()
}

fn batch(block_number: u64, block_hash: B256) -> BlockBatch {
    BlockBatch {
        chain_id: 1,
        block_number,
        block_hash,
        eth: vec![],
        erc20: vec![],
        gas: vec![],
        unattributed: vec![],
    }
}

#[test]
fn schema_applies() {
    let c = Connection::open_in_memory().unwrap();
    c.execute_batch(SCHEMA).unwrap();
    assert_eq!(count(&c, "SELECT count(*) FROM sqlite_master WHERE type='table'"), 5);
}

#[test]
fn unattributed_deltas_has_cause_column() {
    let c = Connection::open_in_memory().unwrap();
    c.execute_batch(SCHEMA).unwrap();
    let mut s = c
        .prepare("SELECT name, \"notnull\" FROM pragma_table_info('unattributed_deltas')")
        .unwrap();
    let cols: Vec<(String, i64)> = s
        .query_map([], |r| Ok((r.get::<_, String>(0)?, r.get::<_, i64>(1)?)))
        .unwrap()
        .map(|r| r.unwrap())
        .collect();
    let cause = cols.iter().find(|(n, _)| n == "cause").expect("cause column present");
    assert_eq!(cause.1, 1, "cause column must be NOT NULL");
}

const ERC20_KEY: &str =
    "SELECT name FROM pragma_table_info('erc20_transfers') WHERE pk>0 ORDER BY pk";

#[test]
fn erc20_pk_includes_address() {
    let c = Connection::open_in_memory().unwrap();
    c.execute_batch(SCHEMA).unwrap();
    assert_eq!(
        texts(&c, ERC20_KEY),
        vec!["chain_id", "block_hash", "tx_hash", "log_index", "address"]
    );
}

#[test]
fn open_sets_wal_and_version() {
    let (l, _dir) = ledger();
    assert_eq!(text(&l, "PRAGMA journal_mode").to_lowercase(), "wal");
    assert_eq!(text(&l, VERSION), SCHEMA_VERSION);
    assert_eq!(text(&l, CHAIN), "1");
}

#[test]
fn reopen_with_mismatched_chain_id_fails() {
    let dir = tempfile::tempdir().unwrap();
    let path = dir.path().join("l.db");
    drop(open(&path, 1).unwrap());
    drop(open(&path, 1).expect("reopen with same chain id"));
    let msg = match open(&path, 999) {
        Ok(_) => panic!("reopen with mismatched chain id must fail"),
        Err(e) => e,
    };
    assert!(msg.contains("chain-id mismatch"), "unexpected error: {msg}");
    assert_eq!(
        msg,
        "chain-id mismatch: existing ledger is for chain 1, but configured chain is 999"
    );
    let c = Connection::open(&path).unwrap();
    assert_eq!(text(&c, CHAIN), "1", "stored chain_id must be left unchanged");
}

#[test]
fn restart_with_different_chain_id_aborts() {
    assert!(check_chain("1", 1).is_ok());
    assert!(check_chain("1", 2).is_err());
    assert!(check_chain("01", 1).is_err());
    assert!(check_chain("", 0).is_err());
}

const OLD_TABLES: &str = r#"
CREATE TABLE meta (k TEXT PRIMARY KEY, v TEXT NOT NULL);
CREATE TABLE eth_transfers (
  chain_id INTEGER NOT NULL, block_number INTEGER NOT NULL, block_hash TEXT NOT NULL,
  tx_hash TEXT, trace_path TEXT NOT NULL, address TEXT NOT NULL,
  direction TEXT NOT NULL, counterparty TEXT NOT NULL, amount_wei TEXT NOT NULL,
  kind TEXT NOT NULL, reverted INTEGER NOT NULL,
  PRIMARY KEY (chain_id, block_hash, tx_hash, trace_path)
);
CREATE TABLE gas_payments (
  chain_id INTEGER NOT NULL, block_number INTEGER NOT NULL, block_hash TEXT NOT NULL,
  tx_hash TEXT NOT NULL, address TEXT NOT NULL, gas_used INTEGER NOT NULL,
  effective_gas_price TEXT NOT NULL, l2_fee_wei TEXT NOT NULL,
  l1_fee_wei TEXT, total_wei TEXT NOT NULL,
  PRIMARY KEY (chain_id, block_hash, tx_hash, address)
);
CREATE TABLE unattributed_deltas (
  chain_id INTEGER NOT NULL, block_number INTEGER NOT NULL, block_hash TEXT NOT NULL,
  address TEXT NOT NULL, observed_wei TEXT NOT NULL,
  attributed_wei TEXT NOT NULL, residual_wei TEXT NOT NULL,
  PRIMARY KEY (chain_id, block_hash, address)
);
"#;

fn old_erc20(key: &str) -> String {
    format!(
        "CREATE TABLE erc20_transfers (
  chain_id INTEGER NOT NULL, block_number INTEGER NOT NULL, block_hash TEXT NOT NULL,
  tx_hash TEXT NOT NULL, log_index INTEGER NOT NULL, token TEXT NOT NULL,
  from_addr TEXT NOT NULL, to_addr TEXT NOT NULL, amount TEXT NOT NULL,
  address TEXT NOT NULL, direction TEXT NOT NULL,
  PRIMARY KEY ({key})
);"
    )
}

#[test]
fn opening_v1_db_migrates_to_v2_preserving_rows() {
    let dir = tempfile::tempdir().unwrap();
    let path = dir.path().join("legacy.db");
    {
        let c = Connection::open(&path).unwrap();
        c.execute_batch(OLD_TABLES).unwrap();
        c.execute_batch(&old_erc20("chain_id, block_hash, tx_hash, log_index")).unwrap();
        c.execute("INSERT INTO meta(k,v) VALUES('schema_version','1')", []).unwrap();
        c.execute("INSERT INTO meta(k,v) VALUES('chain_id','1')", []).unwrap();
        c.execute(
            "INSERT INTO erc20_transfers VALUES \
             (1,7,'0xbh','0xtx',0,'0xtok','0xfrom','0xto','99','0xfrom','out')",
            [],
        )
        .unwrap();
    }
    let l = open(&path, 1).unwrap();
    assert_eq!(text(&l, VERSION), SCHEMA_VERSION);
    assert_eq!(count(&l, "SELECT count(*) FROM erc20_transfers"), 1);
    assert_eq!(
        texts(&l, ERC20_KEY),
        vec!["chain_id", "block_hash", "tx_hash", "log_index", "address"]
    );
    drop(l);
    let l2 = open(&path, 1).unwrap();
    assert_eq!(text(&l2, VERSION), SCHEMA_VERSION);
}

#[test]
fn opening_v2_db_migrates_to_v3_backfills_cause_and_preserves_rows() {
    let dir = tempfile::tempdir().unwrap();
    let path = dir.path().join("legacy_v2.db");
    {
        let c = Connection::open(&path).unwrap();
        c.execute_batch(OLD_TABLES).unwrap();
        c.execute_batch(&old_erc20("chain_id, block_hash, tx_hash, log_index, address")).unwrap();
        c.execute("INSERT INTO meta(k,v) VALUES('schema_version','2')", []).unwrap();
        c.execute("INSERT INTO meta(k,v) VALUES('chain_id','1')", []).unwrap();
        c.execute(
            "INSERT INTO unattributed_deltas VALUES (1,42,'0xbh','0xab','7','0','7')",
            [],
        )
        .unwrap();
    }
    let l = open(&path, 1).unwrap();
    assert_eq!(text(&l, VERSION), "3");
    let (n, cause): (i64, String) = l
        .query_row("SELECT count(*), MAX(cause) FROM unattributed_deltas", [], |r| {
            Ok((r.get(0)?, r.get(1)?))
        })
        .unwrap();
    assert_eq!(n, 1, "pre-existing marker preserved");
    assert_eq!(cause, "unexplained_residual");
}

#[test]
fn unknown_versions_are_refused() {
    match version_step("4") {
        VersionStep::Unsupported { message } => assert_eq!(message, "unsupported schema version 4"),
        other => panic!("{other:?}"),
    }
    assert!(matches!(version_step("3"), VersionStep::Current));
    assert!(matches!(version_step("1"), VersionStep::Migrate { to: "2", .. }));
    assert!(matches!(version_step("2"), VersionStep::Migrate { to: "3", .. }));
}

fn eth_at(block_number: u64, block_hash: B256, tx: u8, path: &str, amount: u64) -> EthTransferRow {
    EthTransferRow {
        chain_id: 1,
        block_number,
        block_hash,
        tx_hash: Some(hash(tx)),
        trace_path: path.to_string(),
        address: address(0xaa),
        direction: Direction::In,
        counterparty: address(0xbb),
        amount_wei: U256::from_u64(amount),
        kind: EthKind::TopLevel,
        reverted: false,
    }
}

#[test]
fn write_block_is_idempotent() {
    let (mut l, _tmp) = ledger();
    let bh = hash(1);
    let mut b = batch(100, bh);
    b.eth = vec![eth_at(100, bh, 2, "0", 5)];
    run(&mut l, write_block(&b)).unwrap();
    run(&mut l, write_block(&b)).unwrap();
    assert_eq!(count(&l, "SELECT count(*) FROM eth_transfers"), 1);
    assert_eq!(text(&l, LAST_BLOCK), "100");
}

fn erc20_at(bh: B256, who: Address, direction: Direction) -> Erc20TransferRow {
    Erc20TransferRow {
        chain_id: 1,
        block_number: 50,
        block_hash: bh,
        tx_hash: hash(0x22),
        log_index: 0,
        token: address(0xcc),
        from: address(0xa1),
        to: address(0xb2),
        amount: U256::from_u64(777),
        address: who,
        direction,
    }
}

#[test]
fn watched_to_watched_erc20_keeps_both_rows() {
    let (mut l, _tmp) = ledger();
    let bh = hash(0x21);
    let mut b = batch(50, bh);
    b.erc20 = vec![
        erc20_at(bh, address(0xb2), Direction::In),
        erc20_at(bh, address(0xa1), Direction::Out),
    ];
    run(&mut l, write_block(&b)).unwrap();
    run(&mut l, write_block(&b)).unwrap();
    assert_eq!(count(&l, "SELECT count(*) FROM erc20_transfers"), 2);
    let n_in = count(&l, "SELECT count(*) FROM erc20_transfers WHERE direction='in'");
    let n_out = count(&l, "SELECT count(*) FROM erc20_transfers WHERE direction='out'");
    assert_eq!((n_in, n_out), (1, 1), "one in row and one out row");
}

fn delta(block_number: u64, bh: u8, amount: u64, cause: UnattributedDeltaCause) -> UnattributedDeltaRow {
    UnattributedDeltaRow {
        chain_id: 1,
        block_number,
        block_hash: hash(bh),
        address: address(0xab),
        observed_wei: U256::from_u64(amount),
        attributed_wei: U256::zero(),
        residual_wei: U256::from_u64(amount),
        cause,
    }
}

#[test]
fn write_unattributed_is_queryable() {
    let (mut l, _tmp) = ledger();
    let row = delta(42, 4, 7, UnattributedDeltaCause::UnexplainedResidual);
    run(&mut l, write_unattributed(&row)).unwrap();
    run(&mut l, write_unattributed(&row)).unwrap();
    assert_eq!(count(&l, "SELECT count(*) FROM unattributed_deltas"), 1);
    assert_eq!(meta(&l, LAST_BLOCK), None, "the last block stays where it is");
}

#[test]
fn write_unattributed_persists_cause_discriminator() {
    let (mut l, _tmp) = ledger();
    let a = delta(1, 0x11, 7, UnattributedDeltaCause::ParentStateUnavailable);
    let b = delta(2, 0x22, 8, UnattributedDeltaCause::UnexplainedResidual);
    run(&mut l, write_unattributed(&a)).unwrap();
    run(&mut l, write_unattributed(&b)).unwrap();
    assert_eq!(
        texts(&l, "SELECT cause FROM unattributed_deltas ORDER BY block_number"),
        vec!["parent_state_unavailable", "unexplained_residual"]
    );
}

#[test]
fn writes_error_not_panic_on_readonly_db() {
    let (mut l, _tmp) = ledger();
    l.pragma_update(None, "query_only", "ON").expect("inject query_only");
    let bh = hash(8);
    assert!(run(&mut l, write_block(&batch(7, bh))).is_err());
    let row = delta(7, 8, 1, UnattributedDeltaCause::UnexplainedResidual);
    assert!(run(&mut l, write_unattributed(&row)).is_err());
    assert!(run(&mut l, delete_blocks(1, &[bh])).is_err());
}

#[test]
fn write_block_persists_last_block_hash() {
    let (mut l, _tmp) = ledger();
    run(&mut l, write_block(&batch(777, hash(0xab)))).unwrap();
    assert_eq!(text(&l, LAST_HASH), hash_text(0xab));
}

#[test]
fn write_gap_block_marker_emits_per_address_rows_and_advances_meta() {
    let (mut l, _tmp) = ledger();
    let watched = WatchedSet::from_addresses(&[address(0xa1), address(0xb2)]);
    run(&mut l, write_gap_block_marker(1, 42, hash(0x77), &watched)).unwrap();
    assert_eq!(count(&l, "SELECT count(*) FROM unattributed_deltas"), 2);
    let mut s = l
        .prepare(
            "SELECT address, observed_wei, attributed_wei, residual_wei, cause \
               FROM unattributed_deltas WHERE block_number=42 ORDER BY address",
        )
        .unwrap();
    let rows: Vec<(String, String, String, String, String)> = s
        .query_map([], |r| Ok((r.get(0)?, r.get(1)?, r.get(2)?, r.get(3)?, r.get(4)?)))
        .unwrap()
        .map(|r| r.unwrap())
        .collect();
    assert_eq!(rows[0].0, address_text(0xa1));
    assert_eq!(rows[1].0, address_text(0xb2));
    for (_, o, a, res, cause) in &rows {
        assert_eq!(o, "0");
        assert_eq!(a, "0");
        assert_eq!(res, "0");
        assert_eq!(cause, "block_not_delivered");
    }
    assert_eq!(text(&l, LAST_BLOCK), "42");
    assert_eq!(text(&l, LAST_HASH), hash_text(0x77));
}

#[test]
fn write_gap_block_marker_is_idempotent() {
    let (mut l, _tmp) = ledger();
    let watched = WatchedSet::from_addresses(&[address(0xaa)]);
    run(&mut l, write_gap_block_marker(1, 11, hash(0x55), &watched)).unwrap();
    run(&mut l, write_gap_block_marker(1, 11, hash(0x55), &watched)).unwrap();
    assert_eq!(count(&l, "SELECT count(*) FROM unattributed_deltas"), 1);
}

#[test]
fn write_gap_block_marker_empty_watched_advances_meta_with_zero_rows() {
    let (mut l, _tmp) = ledger();
    run(&mut l, write_gap_block_marker(1, 99, hash(0x33), &WatchedSet::new())).unwrap();
    assert_eq!(count(&l, "SELECT count(*) FROM unattributed_deltas"), 0);
    assert_eq!(text(&l, LAST_BLOCK), "99", "meta still advances on an empty fill");
}

#[test]
fn write_gap_block_marker_errors_not_panics_on_readonly_db() {
    let (mut l, _tmp) = ledger();
    l.pragma_update(None, "query_only", "ON").expect("inject query_only");
    let watched = WatchedSet::from_addresses(&[address(0xab)]);
    assert!(run(&mut l, write_gap_block_marker(1, 7, hash(0x44), &watched)).is_err());
}

#[test]
fn delete_by_block_hash_removes_all_categories() {
    let (mut l, _tmp) = ledger();
    let bh = hash(9);
    let mut b = batch(5, bh);
    b.eth = vec![EthTransferRow {
        chain_id: 1,
        block_number: 5,
        block_hash: bh,
        tx_hash: Some(hash(2)),
        trace_path: "0".to_string(),
        address: address(1),
        direction: Direction::Out,
        counterparty: address(2),
        amount_wei: U256::from_u64(1),
        kind: EthKind::TopLevel,
        reverted: false,
    }];
    b.erc20 = vec![erc20_at(bh, address(1), Direction::In)];
    b.gas = vec![gas_at(5, bh, 3)];
    b.unattributed = vec![delta(5, 9, 1, UnattributedDeltaCause::UnexplainedResidual)];
    run(&mut l, write_block(&b)).unwrap();
    run(&mut l, delete_blocks(1, &[bh])).unwrap();
    assert_eq!(count(&l, "SELECT count(*) FROM eth_transfers"), 0);
    assert_eq!(count(&l, "SELECT count(*) FROM erc20_transfers"), 0);
    assert_eq!(count(&l, "SELECT count(*) FROM gas_payments"), 0);
    assert_eq!(count(&l, "SELECT count(*) FROM unattributed_deltas"), 0);
}

#[test]
fn reorg_replaces_rows_no_dup() {
    let (mut l, _tmp) = ledger();
    let mut a = batch(2, hash(0xa2));
    a.eth = vec![eth_at(2, hash(0xa2), 1, "0", 10)];
    let mut b = batch(2, hash(0xb2));
    b.eth = vec![eth_at(2, hash(0xb2), 1, "0", 20)];
    let mut kept = batch(1, hash(0xa1));
    kept.eth = vec![eth_at(1, hash(0xa1), 1, "0", 5)];
    run(&mut l, write_block(&kept)).unwrap();
    run(&mut l, write_block(&a)).unwrap();
    run(&mut l, delete_blocks(1, &[hash(0xa2)])).unwrap();
    run(&mut l, write_block(&b)).unwrap();
    assert_eq!(
        texts(&l, "SELECT block_hash FROM eth_transfers ORDER BY block_number"),
        vec![hash_text(0xa1), hash_text(0xb2)]
    );
    run(&mut l, delete_blocks(2, &[hash(0xb2)])).unwrap();
    assert_eq!(count(&l, "SELECT count(*) FROM eth_transfers"), 2, "another chain's rows");
}

#[test]
fn restart_resumes_no_gap_no_dup() {
    let dir = tempfile::tempdir().unwrap();
    let path = dir.path().join("l.db");
    let mut b = batch(3, hash(3));
    b.eth = vec![eth_at(3, hash(3), 1, "0", 10)];
    {
        let mut l = open(&path, 1).unwrap();
        assert_eq!(resume_head(&meta(&l, LAST_BLOCK), &meta(&l, LAST_HASH)), None);
        run(&mut l, write_block(&b)).unwrap();
    }
    let mut l = open(&path, 1).unwrap();
    assert_eq!(
        resume_head(&meta(&l, LAST_BLOCK), &meta(&l, LAST_HASH)),
        Some(BlockId { number: 3, hash: hash(3) })
    );
    run(&mut l, write_block(&b)).unwrap();
    assert_eq!(count(&l, "SELECT count(*) FROM eth_transfers"), 1);
}

const ADDR: u8 = 0xaa;

fn eth_row(bn: u64, nonce: u8) -> EthTransferRow {
    eth_at(bn, hash(bn as u8), nonce, &nonce.to_string(), nonce as u64 + 1)
}

fn erc20_row(bn: u64, log: u64) -> Erc20TransferRow {
    Erc20TransferRow {
        chain_id: 1,
        block_number: bn,
        block_hash: hash(bn as u8),
        tx_hash: hash((log + 1) as u8),
        log_index: log,
        token: address(0xcc),
        from: address(0xdd),
        to: address(ADDR),
        amount: U256::from_u64(log + 1),
        address: address(ADDR),
        direction: Direction::In,
    }
}

fn gas_at(bn: u64, bh: B256, gas_used: u64) -> GasPaymentRow {
    GasPaymentRow {
        chain_id: 1,
        block_number: bn,
        block_hash: bh,
        tx_hash: hash(7),
        address: address(ADDR),
        gas_used,
        effective_gas_price: 1u128,
        l2_fee_wei: U256::from_u64(gas_used),
        l1_fee_wei: None,
        total_wei: U256::from_u64(gas_used),
    }
}

fn write_eth(l: &mut Connection, bn: u64, n: u64) {
    let mut b = batch(bn, hash(bn as u8));
    for i in 0..n {
        b.eth.push(eth_row(bn, i as u8));
    }
    run(l, write_block(&b)).unwrap();
}

fn drain(l: &Connection, kind: Option<&str>, lim: u32) -> Vec<(u64, &'static str, String)> {
    let mut all: Vec<(u64, &'static str, String)> = Vec::new();
    let mut cursor: Option<u64> = None;
    let mut pages = 0;
    loop {
        let p = page(l, &address_text(ADDR), None, None, kind, cursor, lim);
        for r in &p.rows {
            all.push((r.block_number, r.category, r.amount.clone()));
        }
        pages += 1;
        assert!(pages < 100_000, "pagination did not terminate");
        match p.next_cursor {
            Some(c) => {
                if let Some(maxb) = p.rows.iter().map(|r| r.block_number).max() {
                    assert!(c > maxb, "cursor {c} did not advance past page max {maxb}");
                }
                cursor = Some(c);
            }
            None => break,
        }
    }
    all
}

#[test]
fn health_reports_last_block() {
    let (l, _t) = ledger();
    assert_eq!(health_of(&l).last_block, None);
    l.execute(
        "INSERT INTO meta(k,v) VALUES('last_block','42')
         ON CONFLICT(k) DO UPDATE SET v=excluded.v",
        [],
    )
    .unwrap();
    assert_eq!(health_of(&l).last_block, Some(42));
}

#[test]
fn unreadable_numbers_are_no_health() {
    let t = |s: &str| Some(s.to_string());
    let h = health(&t("x"), &t("18446744073709551616"));
    assert_eq!((h.last_block, h.chain_id), (None, None));
    let h = health(&t("+7"), &t("18446744073709551615"));
    assert_eq!((h.last_block, h.chain_id), (Some(7), Some(u64::MAX)));
}

#[test]
fn single_category_over_limit_no_skip_no_dup() {
    let (mut l, _t) = ledger();
    for bn in 1..=50u64 {
        write_eth(&mut l, bn, 3);
    }
    let got = drain(&l, Some("eth"), 10);
    assert_eq!(got.len(), 150, "must return every row exactly once");
    let mut expected: Vec<(u64, &'static str)> = Vec::new();
    for bn in 1..=50u64 {
        for _ in 0..3 {
            expected.push((bn, "eth"));
        }
    }
    let mut got_bc: Vec<(u64, &'static str)> = got.iter().map(|(b, c, _)| (*b, *c)).collect();
    got_bc.sort();
    expected.sort();
    assert_eq!(got_bc, expected, "exact multiset: no skip, no dup");
    assert_eq!(got.iter().filter(|(_, c, _)| *c == "eth").count(), 150);
}

#[test]
fn single_block_over_limit_never_split() {
    let (mut l, _t) = ledger();
    write_eth(&mut l, 1, 3);
    write_eth(&mut l, 2, 25);
    write_eth(&mut l, 3, 2);
    let addr = address_text(ADDR);
    let p1 = page(&l, &addr, None, None, Some("eth"), None, 5);
    let mut seen_by_block: HashMap<u64, usize> = HashMap::new();
    let mut page_of_block: HashMap<u64, usize> = HashMap::new();
    let mut cursor = p1.next_cursor;
    for r in &p1.rows {
        *seen_by_block.entry(r.block_number).or_default() += 1;
        page_of_block.entry(r.block_number).or_insert(0);
    }
    let mut page_idx = 1;
    while let Some(c) = cursor {
        let p = page(&l, &addr, None, None, Some("eth"), Some(c), 5);
        for r in &p.rows {
            *seen_by_block.entry(r.block_number).or_default() += 1;
            let pg = *page_of_block.entry(r.block_number).or_insert(page_idx);
            assert_eq!(pg, page_idx, "block {} appeared in >1 page", r.block_number);
        }
        cursor = p.next_cursor;
        page_idx += 1;
        assert!(page_idx < 1000);
    }
    assert_eq!(seen_by_block.get(&1), Some(&3));
    assert_eq!(seen_by_block.get(&2), Some(&25), "fat block fully present");
    assert_eq!(seen_by_block.get(&3), Some(&2));
    assert_eq!(drain(&l, Some("eth"), 5).len(), 30);
}

#[test]
fn multi_category_same_blocks_merged_complete() {
    let (mut l, _t) = ledger();
    for bn in 1..=20u64 {
        let bh = hash(bn as u8);
        let mut b = batch(bn, bh);
        b.eth = vec![eth_row(bn, 0), eth_row(bn, 1)];
        b.erc20 = vec![erc20_row(bn, 0), erc20_row(bn, 1)];
        b.gas = vec![gas_at(bn, bh, 21000)];
        b.unattributed = vec![UnattributedDeltaRow {
            chain_id: 1,
            block_number: bn,
            block_hash: bh,
            address: address(ADDR),
            observed_wei: U256::from_u64(1),
            attributed_wei: U256::zero(),
            residual_wei: U256::from_u64(1),
            cause: UnattributedDeltaCause::UnexplainedResidual,
        }];
        run(&mut l, write_block(&b)).unwrap();
    }
    let all = drain(&l, None, 7);
    assert_eq!(all.len(), 120, "all categories, all blocks, exactly once");
    let blocks: Vec<u64> = all.iter().map(|(b, _, _)| *b).collect();
    let mut sorted = blocks.clone();
    sorted.sort();
    assert_eq!(blocks, sorted, "globally ascending by block");
    let c = |k: &str| all.iter().filter(|(_, cat, _)| *cat == k).count();
    assert_eq!(c("eth"), 40);
    assert_eq!(c("erc20"), 40);
    assert_eq!(c("gas"), 20);
    assert_eq!(c("unattributed"), 20);
}

#[test]
fn kind_filter_restricts() {
    let (mut l, _t) = ledger();
    for bn in 1..=5u64 {
        let bh = hash(bn as u8);
        let mut b = batch(bn, bh);
        b.eth = vec![eth_row(bn, 0)];
        b.erc20 = vec![erc20_row(bn, 0)];
        b.gas = vec![gas_at(bn, bh, 1)];
        run(&mut l, write_block(&b)).unwrap();
    }
    assert_eq!(drain(&l, Some("eth"), 100).len(), 5);
    assert_eq!(drain(&l, Some("erc20"), 100).len(), 5);
    assert_eq!(drain(&l, Some("gas"), 100).len(), 5);
    assert_eq!(drain(&l, Some("unattributed"), 100).len(), 0);
    assert_eq!(drain(&l, None, 100).len(), 15);
    let p = page(&l, &address_text(ADDR), None, None, Some("nope"), None, 100);
    assert!(p.rows.is_empty());
    assert_eq!(p.next_cursor, None);
    let p = page(&l, &address_text(ADDR), None, None, Some("eth"), None, 100);
    assert!(p.rows.iter().all(|r| r.kind.as_deref() == Some("top_level")));
    let p = page(&l, &address_text(ADDR), None, None, Some("gas"), None, 100);
    assert!(p.rows.iter().all(|r| r.kind.as_deref() == Some("gas")));
    assert_eq!(p.rows[0].direction.as_deref(), Some("out"));
    assert_eq!(p.rows[0].tx_hash, Some(hash_text(7)));
    let p = page(&l, &address_text(ADDR), None, None, Some("erc20"), None, 100);
    assert_eq!(p.rows[0].token, Some(address_text(0xcc)));
    assert_eq!(p.rows[0].counterparty, None);
}

#[test]
fn empty_and_out_of_range() {
    let (mut l, _t) = ledger();
    write_eth(&mut l, 100, 2);
    let addr = address_text(ADDR);
    let p = page(&l, &address_text(0x11), None, None, None, None, 50);
    assert!(p.rows.is_empty() && p.next_cursor.is_none());
    let p = page(&l, &addr, Some(1), Some(50), None, None, 50);
    assert!(p.rows.is_empty() && p.next_cursor.is_none());
    let p = page(&l, &addr, Some(200), Some(300), None, None, 50);
    assert!(p.rows.is_empty() && p.next_cursor.is_none());
    let p = page(&l, &addr, Some(100), Some(100), None, None, 50);
    assert_eq!(p.rows.len(), 2);
    assert_eq!(p.next_cursor, None);
}

#[test]
fn query_bounds() {
    let q = transfers_query(1, "0xa", None, None, None, None, 0);
    assert_eq!((q.lo, q.hi, q.want, q.lim), (0, i64::MAX, -1, 1));
    let q = transfers_query(1, "0xa", Some(5), Some(9), Some("gas"), Some(7), 500);
    assert_eq!((q.lo, q.hi, q.want, q.lim), (7, 9, 2, 500));
    let q = transfers_query(1, "0xa", Some(5), Some(u64::MAX), Some("nope"), Some(3), 500);
    assert_eq!((q.lo, q.hi, q.want), (3, i64::MAX, 99));
    let q = transfers_query(1, "0xa", Some(5), Some(9), None, Some(i64::MAX as u64), 10);
    assert_eq!((q.lo, q.hi), (i64::MAX, 9));
    for start in [1u64 << 63, u64::MAX] {
        let q = transfers_query(1, "0xa", Some(start), None, None, None, 10);
        assert!(q.lo > q.hi, "nothing from beyond the largest number on");
        let q = transfers_query(1, "0xa", Some(5), None, None, Some(start), 10);
        assert!(q.lo > q.hi);
    }
    assert_eq!(category_str(0), "eth");
    assert_eq!(category_str(3), "unattributed");
    assert_eq!(category_str(-1), "unattributed");
}

#[test]
fn an_error_of_the_ledger_is_the_answer() {
    let none = |_: &TransfersQuery, _: i64| Ok(Vec::new());
    let r = get_transfers(
        1,
        "0xa",
        None,
        None,
        None,
        None,
        10,
        |_: &TransfersQuery, _: i64| Err("down".to_string()),
        none,
        |_: &TransfersQuery, _: i64| Ok(false),
    );
    assert_eq!(r.err().unwrap(), "down");
}

fn known_row() -> (Connection, tempfile::TempDir) {
    let (mut l, t) = ledger();
    let mut b = batch(9, hash(9));
    b.eth = vec![eth_at(9, hash(9), 3, "0", 123)];
    run(&mut l, write_block(&b)).unwrap();
    l.execute(
        "INSERT INTO meta(k,v) VALUES('last_block','77')
         ON CONFLICT(k) DO UPDATE SET v=excluded.v",
        [],
    )
    .unwrap();
    (l, t)
}

#[test]
fn health_returns_last_block() {
    let (l, _t) = known_row();
    let h = health_of(&l);
    assert_eq!(h.last_block, Some(77));
    assert_eq!(h.chain_id, Some(1));
}

#[test]
fn get_transfers_returns_known_row() {
    let (l, _t) = known_row();
    let page = page(&l, &address_text(0xaa), None, None, None, None, 500);
    assert_eq!(page.rows.len(), 1);
    let row = &page.rows[0];
    assert_eq!(row.category, "eth");
    assert_eq!(row.block_number, 9);
    assert_eq!(row.amount, "123");
    assert_eq!(row.kind.as_deref(), Some("top_level"));
    assert_eq!(row.counterparty, Some(address_text(0xbb)));
    assert_eq!(page.next_cursor, None);
}

#[test]
fn a_start_beyond_the_largest_number_finds_nothing() {
    let (mut l, _t) = ledger();
    write_eth(&mut l, 5, 2);
    let who = address_text(ADDR);
    assert_eq!(page(&l, &who, Some(5), None, None, None, 10).rows.len(), 2);
    for start in [1u64 << 63, u64::MAX] {
        for (from, cursor) in [(Some(start), None), (Some(1), Some(start))] {
            let p = page(&l, &who, from, None, None, cursor, 10);
            assert_eq!((p.rows.len(), p.next_cursor), (0, None));
        }
    }
}

fn dump(l: &Connection) -> Vec<String> {
    let mut all = Vec::new();
    for sql in [
        "SELECT address||block_hash||amount_wei FROM eth_transfers",
        "SELECT address||block_hash||amount FROM erc20_transfers",
        "SELECT address||block_hash||total_wei FROM gas_payments",
        "SELECT address||block_hash||residual_wei FROM unattributed_deltas",
    ] {
        all.extend(texts(l, sql));
    }
    all
}

#[test]
fn undoing_a_block_restores_the_tables() {
    let (mut l, _t) = ledger();
    write_eth(&mut l, 4, 3);
    let before = dump(&l);
    let bh = hash(9);
    let mut b = batch(5, bh);
    b.eth = vec![eth_at(5, bh, 1, "0", 8)];
    b.erc20 = vec![erc20_at(bh, address(1), Direction::In)];
    b.gas = vec![gas_at(5, bh, 3)];
    b.unattributed = vec![delta(5, 9, 1, UnattributedDeltaCause::UnexplainedResidual)];
    run(&mut l, write_block(&b)).unwrap();
    assert_eq!(dump(&l).len(), before.len() + 4);
    for _ in 0..2 {
        run(&mut l, delete_blocks(1, &[bh])).unwrap();
        assert_eq!(dump(&l), before, "and a second time changes nothing");
    }
}

/// What opening does to a file with a version and a chain, or to a new one.
fn opened(stored: Option<(&str, &str)>, chain_id: u64) -> (Vec<&'static str>, Option<String>) {
    let mut version = stored.map(|s| s.0.to_string());
    let mut done = Vec::new();
    let mut action = OpenAction::Find;
    loop {
        let event = match &action {
            OpenAction::Find => OpenEvent::Found(stored.is_some()),
            OpenAction::Create { version, chain } => {
                assert_eq!((version.as_str(), chain), (SCHEMA_VERSION, &chain_id.to_string()));
                done.push("create");
                OpenEvent::Created
            }
            OpenAction::ReadVersion => OpenEvent::Version(version.clone().unwrap()),
            OpenAction::Migrate { note, .. } => {
                let to = if note.contains("'2'") { "2" } else { "3" };
                done.push(to);
                version = Some(to.to_string());
                OpenEvent::Migrated
            }
            OpenAction::ReadChain => OpenEvent::Chain(stored.unwrap().1.to_string()),
            OpenAction::Finish => return (done, None),
            OpenAction::Refuse { message } => return (done, Some(message.clone())),
        };
        action = opening_step(action, event, chain_id);
    }
}

#[test]
fn opening_succeeds_on_new_files_and_known_versions_of_the_chain() {
    assert_eq!(opened(None, 7), (vec!["create"], None));
    assert_eq!(opened(Some(("1", "7")), 7), (vec!["2", "3"], None));
    assert_eq!(opened(Some(("2", "7")), 7), (vec!["3"], None));
    assert_eq!(opened(Some(("3", "7")), 7), (vec![], None));
    let (done, refusal) = opened(Some(("4", "7")), 7);
    assert_eq!((done.len(), refusal.unwrap().as_str()), (0, "unsupported schema version 4"));
    let (done, refusal) = opened(Some(("1", "7")), 8);
    assert_eq!(done, vec!["2", "3"], "brought forward before its chain is compared");
    assert_eq!(
        refusal.unwrap(),
        "chain-id mismatch: existing ledger is for chain 7, but configured chain is 8"
    );
    let stray = opening_step(OpenAction::ReadVersion, OpenEvent::Created, 7);
    assert!(matches!(stray, OpenAction::ReadVersion));
}

#[test]
fn of_a_self_transfer_the_outgoing_row_stays() {
    let (mut l, _t) = ledger();
    let w = address(0xa1);
    let mut topic = [0u8; 32];
    topic[12..].copy_from_slice(&[0xa1; 20]);
    let party = B256::from_bytes(&topic);
    let b = process_block(BlockInputs {
        chain_id: 1,
        block_number: 5,
        block_hash: hash(9),
        watched: WatchedSet::from_addresses(&[w]),
        erc20_logs: vec![(
            Some(hash(2)),
            0,
            RawLog {
                address: address(0x99),
                topics: vec![transfer_topic0(), party, party],
                data: vec![0u8; 32],
            },
        )],
        frames: vec![],
        gas: vec![],
        account_deltas: vec![],
        system_signed: vec![],
    })
    .expect("clean");
    run(&mut l, write_block(&b)).unwrap();
    assert_eq!(b.erc20.len(), 2);
    assert_eq!(count(&l, "SELECT count(*) FROM erc20_transfers"), 1);
    assert_eq!(texts(&l, "SELECT direction FROM erc20_transfers"), vec!["out"]);
}
