//! What is stored, and what the ledger's statements do to it.
//!
//! A statement is handed to SQLite as its text and its parameters. What it does
//! is modelled on sequences of rows, in the order in which they were inserted.

use vstd::prelude::*;

verus! {

/// A stored value.
#[derive(Clone, Debug)]
pub enum SqlValue {
    Null,
    Unsigned(u64),
    Signed(i64),
    Text(String),
}

/// What a [`SqlValue`] says.
pub enum Value {
    Null,
    Integer(int),
    Text(Seq<char>),
}

impl View for SqlValue {
    type V = Value;

    open spec fn view(&self) -> Value {
        match self {
            SqlValue::Null => Value::Null,
            SqlValue::Unsigned(n) => Value::Integer(*n as int),
            SqlValue::Signed(n) => Value::Integer(*n as int),
            SqlValue::Text(s) => Value::Text(s@),
        }
    }
}

/// What values say, in order.
pub open spec fn values_view(values: Seq<SqlValue>) -> Seq<Value> {
    Seq::new(values.len(), |i: int| values[i]@)
}

/// The tables that hold rows.
#[derive(Clone, Copy, Debug, PartialEq, Eq, Structural)]
pub enum Table {
    EthTransfers,
    Erc20Transfers,
    GasPayments,
    UnattributedDeltas,
}

/// One change to the ledger.
#[derive(Clone, Debug)]
pub enum Statement {
    /// Insert a row, in place of one with the same key.
    Put { table: Table, values: Vec<SqlValue> },
    /// Set a single value, in place of the one it had.
    SetMeta { key: MetaKey, value: String },
    /// Delete the rows of a block.
    DeleteBlock { table: Table, chain_id: u64, block_hash: String },
}

/// The single values that change.
#[derive(Clone, Copy, Debug, PartialEq, Eq, Structural)]
pub enum MetaKey {
    LastBlock,
    LastBlockHash,
}

/// What a [`Statement`] says.
pub enum Op {
    Put(Row),
    SetMeta { key: MetaKey, value: Seq<char> },
    DeleteBlock { table: Table, chain_id: int, block_hash: Seq<char> },
}

impl View for Statement {
    type V = Op;

    open spec fn view(&self) -> Op {
        match self {
            Statement::Put { table, values } => Op::Put(
                Row { table: *table, values: values_view(values@) },
            ),
            Statement::SetMeta { key, value } => Op::SetMeta { key: *key, value: value@ },
            Statement::DeleteBlock { table, chain_id, block_hash } => Op::DeleteBlock {
                table: *table,
                chain_id: *chain_id as int,
                block_hash: block_hash@,
            },
        }
    }
}

/// What statements say, in order.
pub open spec fn ops_view(statements: Seq<Statement>) -> Seq<Op> {
    Seq::new(statements.len(), |i: int| statements[i]@)
}

/// Pushing a statement pushes what it says.
pub proof fn lemma_ops_push(statements: Seq<Statement>, s: Statement)
    ensures
        ops_view(statements.push(s)) == ops_view(statements).push(s@),
{
    assert(ops_view(statements.push(s)) =~= ops_view(statements).push(s@));
}

impl Table {
    /// The text of the statement that inserts a row.
    pub open spec fn put_text(self) -> Seq<char> {
        match self {
            Table::EthTransfers =>
            "INSERT OR REPLACE INTO eth_transfers VALUES (?1,?2,?3,?4,?5,?6,?7,?8,?9,?10,?11)"@,
            Table::Erc20Transfers =>
            "INSERT OR REPLACE INTO erc20_transfers VALUES (?1,?2,?3,?4,?5,?6,?7,?8,?9,?10,?11)"@,
            Table::GasPayments =>
            "INSERT OR REPLACE INTO gas_payments VALUES (?1,?2,?3,?4,?5,?6,?7,?8,?9,?10)"@,
            Table::UnattributedDeltas =>
            "INSERT OR REPLACE INTO unattributed_deltas VALUES (?1,?2,?3,?4,?5,?6,?7,?8)"@,
        }
    }

    /// The text of the statement that deletes a block's rows.
    pub open spec fn delete_text(self) -> Seq<char> {
        match self {
            Table::EthTransfers =>
            "DELETE FROM eth_transfers WHERE chain_id=?1 AND block_hash=?2"@,
            Table::Erc20Transfers =>
            "DELETE FROM erc20_transfers WHERE chain_id=?1 AND block_hash=?2"@,
            Table::GasPayments => "DELETE FROM gas_payments WHERE chain_id=?1 AND block_hash=?2"@,
            Table::UnattributedDeltas =>
            "DELETE FROM unattributed_deltas WHERE chain_id=?1 AND block_hash=?2"@,
        }
    }

    /// The places of the columns that make up the key.
    pub open spec fn key_columns(self) -> Seq<int> {
        match self {
            Table::EthTransfers => seq![0, 2, 3, 4],
            Table::Erc20Transfers => seq![0, 2, 3, 4, 9],
            Table::GasPayments => seq![0, 2, 3, 4],
            Table::UnattributedDeltas => seq![0, 2, 3],
        }
    }
}

impl Op {
    /// The text that is handed to SQLite.
    pub open spec fn text(self) -> Seq<char> {
        match self {
            Op::Put(row) => row.table.put_text(),
            Op::SetMeta { key: MetaKey::LastBlock, .. } =>
            "INSERT INTO meta(k,v) VALUES('last_block',?1) ON CONFLICT(k) DO UPDATE SET v=excluded.v"@,
            Op::SetMeta { key: MetaKey::LastBlockHash, .. } =>
            "INSERT INTO meta(k,v) VALUES('last_block_hash',?1) ON CONFLICT(k) DO UPDATE SET v=excluded.v"@,
            Op::DeleteBlock { table, .. } => table.delete_text(),
        }
    }

    /// The parameters that are handed to SQLite.
    pub open spec fn params(self) -> Seq<Value> {
        match self {
            Op::Put(row) => row.values,
            Op::SetMeta { value, .. } => seq![Value::Text(value)],
            Op::DeleteBlock { chain_id, block_hash, .. } => seq![
                Value::Integer(chain_id),
                Value::Text(block_hash),
            ],
        }
    }
}

impl Statement {
    /// The text of the statement.
    pub fn sql(&self) -> (r: &'static str)
        ensures
            r@ == self@.text(),
    {
        match self {
            Statement::Put { table, .. } => match table {
                Table::EthTransfers =>
                "INSERT OR REPLACE INTO eth_transfers VALUES (?1,?2,?3,?4,?5,?6,?7,?8,?9,?10,?11)",
                Table::Erc20Transfers =>
                "INSERT OR REPLACE INTO erc20_transfers VALUES (?1,?2,?3,?4,?5,?6,?7,?8,?9,?10,?11)",
                Table::GasPayments =>
                "INSERT OR REPLACE INTO gas_payments VALUES (?1,?2,?3,?4,?5,?6,?7,?8,?9,?10)",
                Table::UnattributedDeltas =>
                "INSERT OR REPLACE INTO unattributed_deltas VALUES (?1,?2,?3,?4,?5,?6,?7,?8)",
            },
            Statement::SetMeta { key, .. } => match key {
                MetaKey::LastBlock =>
                "INSERT INTO meta(k,v) VALUES('last_block',?1) ON CONFLICT(k) DO UPDATE SET v=excluded.v",
                MetaKey::LastBlockHash =>
                "INSERT INTO meta(k,v) VALUES('last_block_hash',?1) ON CONFLICT(k) DO UPDATE SET v=excluded.v",
            },
            Statement::DeleteBlock { table, .. } => match table {
                Table::EthTransfers =>
                "DELETE FROM eth_transfers WHERE chain_id=?1 AND block_hash=?2",
                Table::Erc20Transfers =>
                "DELETE FROM erc20_transfers WHERE chain_id=?1 AND block_hash=?2",
                Table::GasPayments =>
                "DELETE FROM gas_payments WHERE chain_id=?1 AND block_hash=?2",
                Table::UnattributedDeltas =>
                "DELETE FROM unattributed_deltas WHERE chain_id=?1 AND block_hash=?2",
            },
        }
    }

    /// The parameters of the statement.
    pub fn into_params(self) -> (r: Vec<SqlValue>)
        ensures
            values_view(r@) == self@.params(),
    {
        let ghost params = self@.params();
        let mut r: Vec<SqlValue> = Vec::new();
        match self {
            Statement::Put { values, .. } => {
                r = values;
            },
            Statement::SetMeta { value, .. } => {
                r.push(SqlValue::Text(value));
            },
            Statement::DeleteBlock { chain_id, block_hash, .. } => {
                r.push(SqlValue::Unsigned(chain_id));
                r.push(SqlValue::Text(block_hash));
            },
        }
        assert(values_view(r@) =~= params);
        r
    }
}

/// A stored row.
pub struct Row {
    pub table: Table,
    pub values: Seq<Value>,
}

impl Row {
    /// The values of the key columns.
    pub open spec fn key(self) -> Seq<Value> {
        Seq::new(
            self.table.key_columns().len(),
            |i: int| self.values[self.table.key_columns()[i]],
        )
    }

    /// Whether no key column is null. A null is not the same as any value, not
    /// even another null, so a row with one is never replaced.
    pub open spec fn keyed(self) -> bool {
        forall|i: int|
            0 <= i < self.key().len() ==> #[trigger] self.key()[i] != Value::Null
    }

    /// Whether inserting `other` replaces this row.
    pub open spec fn replaced_by(self, other: Row) -> bool {
        self.table == other.table && self.keyed() && self.key() == other.key()
    }

    /// Whether this row belongs to a block.
    pub open spec fn of_block(self, table: Table, chain_id: int, block_hash: Seq<char>) -> bool {
        self.table == table && self.values[0] == Value::Integer(chain_id) && self.values[2]
            == Value::Text(block_hash)
    }
}

/// The contents of the ledger: its rows in the order of insertion, and its
/// single values.
pub struct Store {
    pub rows: Seq<Row>,
    pub meta: Map<MetaKey, Seq<char>>,
}

/// The rows that are not replaced by `row`.
pub open spec fn kept_beside(rows: Seq<Row>, row: Row) -> Seq<Row> {
    rows.filter(|r: Row| !r.replaced_by(row))
}

impl Store {
    /// The contents after one statement.
    pub open spec fn after(self, op: Op) -> Store {
        match op {
            Op::Put(row) => Store { rows: kept_beside(self.rows, row).push(row), ..self },
            Op::SetMeta { key, value } => Store { meta: self.meta.insert(key, value), ..self },
            Op::DeleteBlock { table, chain_id, block_hash } => Store {
                rows: self.rows.filter(|r: Row| !r.of_block(table, chain_id, block_hash)),
                ..self
            },
        }
    }

    /// The contents after a transaction of statements.
    pub open spec fn after_all(self, ops: Seq<Op>) -> Store
        decreases ops.len(),
    {
        if ops.len() == 0 {
            self
        } else {
            self.after_all(ops.drop_last()).after(ops.last())
        }
    }
}

/// A transaction of two parts is the one and then the other.
pub proof fn lemma_after_all_concat(s: Store, a: Seq<Op>, b: Seq<Op>)
    ensures
        s.after_all(a + b) == s.after_all(a).after_all(b),
    decreases b.len(),
{
    if b.len() == 0 {
        assert(a + b =~= a);
    } else {
        assert((a + b).drop_last() =~= a + b.drop_last());
        assert((a + b).last() == b.last());
        lemma_after_all_concat(s, a, b.drop_last());
    }
}

/// A row is in the filtered sequence exactly if it was in the sequence and
/// passes.
pub proof fn lemma_filter_contains(rows: Seq<Row>, pred: spec_fn(Row) -> bool, row: Row)
    ensures
        rows.filter(pred).contains(row) <==> rows.contains(row) && pred(row),
    decreases rows.len(),
{
    reveal(Seq::filter);
    if rows.len() > 0 {
        let init = rows.drop_last();
        lemma_filter_contains(init, pred, row);
        let fi = init.filter(pred);
        assert(rows =~= init.push(rows.last()));
        if rows.contains(row) && !init.contains(row) {
            let i = choose|i: int| 0 <= i < rows.len() && rows[i] == row;
            if i < init.len() {
                assert(init[i] == row);
            }
            assert(row == rows.last());
        }
        if init.contains(row) {
            let i = choose|i: int| 0 <= i < init.len() && init[i] == row;
            assert(rows[i] == row);
        }
        assert(rows[rows.len() - 1] == rows.last());
        if pred(rows.last()) {
            assert(rows.filter(pred) =~= fi.push(rows.last()));
            assert(fi.push(rows.last())[fi.len() as int] == rows.last());
            if fi.contains(row) {
                let i = choose|i: int| 0 <= i < fi.len() && fi[i] == row;
                assert(fi.push(rows.last())[i] == row);
            }
            if fi.push(rows.last()).contains(row) && row != rows.last() {
                let i = choose|i: int|
                    0 <= i < fi.push(rows.last()).len() && fi.push(rows.last())[i] == row;
                assert(fi[i] == row);
            }
        }
    }
}

/// Filtering what is left of a concatenation is concatenating what is left.
pub proof fn lemma_filter_concat(a: Seq<Row>, b: Seq<Row>, pred: spec_fn(Row) -> bool)
    ensures
        (a + b).filter(pred) == a.filter(pred) + b.filter(pred),
    decreases b.len(),
{
    reveal(Seq::filter);
    if b.len() == 0 {
        assert(a + b =~= a);
        assert(a.filter(pred) + b.filter(pred) =~= a.filter(pred));
    } else {
        assert((a + b).drop_last() =~= a + b.drop_last());
        assert((a + b).last() == b.last());
        lemma_filter_concat(a, b.drop_last(), pred);
        assert((a + b).filter(pred) =~= a.filter(pred) + b.filter(pred));
    }
}

/// Filtering twice is filtering by both.
pub proof fn lemma_filter_twice(
    rows: Seq<Row>,
    p: spec_fn(Row) -> bool,
    q: spec_fn(Row) -> bool,
    both: spec_fn(Row) -> bool,
)
    requires
        forall|r: Row| #[trigger] both(r) == (p(r) && q(r)),
    ensures
        rows.filter(p).filter(q) == rows.filter(both),
    decreases rows.len(),
{
    reveal(Seq::filter);
    if rows.len() > 0 {
        let init = rows.drop_last();
        let last = rows.last();
        lemma_filter_twice(init, p, q, both);
        assert(both(last) == (p(last) && q(last)));
        if p(last) {
            let f = init.filter(p).push(last);
            assert(f.drop_last() =~= init.filter(p));
            assert(f.last() == last);
        }
    }
}

/// A filter that everything passes changes nothing.
pub proof fn lemma_filter_all(rows: Seq<Row>, pred: spec_fn(Row) -> bool)
    requires
        forall|r: Row| #[trigger] rows.contains(r) ==> pred(r),
    ensures
        rows.filter(pred) == rows,
    decreases rows.len(),
{
    reveal(Seq::filter);
    if rows.len() > 0 {
        let init = rows.drop_last();
        assert forall|r: Row| #[trigger] init.contains(r) implies pred(r) by {
            let i = choose|i: int| 0 <= i < init.len() && init[i] == r;
            assert(rows[i] == r);
            assert(rows.contains(r));
        }
        lemma_filter_all(init, pred);
        assert(rows[rows.len() - 1] == rows.last());
        assert(rows.contains(rows.last()));
        assert(init.push(rows.last()) =~= rows);
    }
}

/// A filter that nothing passes leaves nothing.
pub proof fn lemma_filter_none(rows: Seq<Row>, pred: spec_fn(Row) -> bool)
    requires
        forall|r: Row| #[trigger] rows.contains(r) ==> !pred(r),
    ensures
        rows.filter(pred) == Seq::<Row>::empty(),
    decreases rows.len(),
{
    reveal(Seq::filter);
    if rows.len() > 0 {
        let init = rows.drop_last();
        assert forall|r: Row| #[trigger] init.contains(r) implies !pred(r) by {
            let i = choose|i: int| 0 <= i < init.len() && init[i] == r;
            assert(rows[i] == r);
            assert(rows.contains(r));
        }
        lemma_filter_none(init, pred);
        assert(rows[rows.len() - 1] == rows.last());
        assert(rows.contains(rows.last()));
    }
}

/// The statements that insert rows.
pub open spec fn puts(rows: Seq<Row>) -> Seq<Op> {
    Seq::new(rows.len(), |i: int| Op::Put(rows[i]))
}

/// Whether a row is replaced by one of `rows`.
pub open spec fn replaced_by_any(row: Row, rows: Seq<Row>) -> bool {
    exists|i: int| 0 <= i < rows.len() && row.replaced_by(#[trigger] rows[i])
}

/// Of `rows`, those that no later one replaces.
pub open spec fn survivors(rows: Seq<Row>) -> Seq<Row>
    decreases rows.len(),
{
    if rows.len() == 0 {
        Seq::empty()
    } else {
        kept_beside(survivors(rows.drop_last()), rows.last()).push(rows.last())
    }
}

/// Inserting rows keeps what they do not replace, in its order, and adds those
/// of them that survive; single values stay.
pub proof fn lemma_puts(s: Store, rows: Seq<Row>)
    ensures
        s.after_all(puts(rows)).rows == s.rows.filter(|r: Row| !replaced_by_any(r, rows))
            + survivors(rows),
        s.after_all(puts(rows)).meta == s.meta,
    decreases rows.len(),
{
    if rows.len() == 0 {
        lemma_filter_all(s.rows, |r: Row| !replaced_by_any(r, rows));
        assert(s.rows + survivors(rows) =~= s.rows);
    } else {
        let init = rows.drop_last();
        let last = rows.last();
        lemma_puts(s, init);
        assert(puts(rows).drop_last() =~= puts(init));
        assert(puts(rows).last() == Op::Put(last));
        let p = |r: Row| !replaced_by_any(r, init);
        let q = |r: Row| !r.replaced_by(last);
        let both = |r: Row| !replaced_by_any(r, rows);
        assert forall|r: Row| #[trigger] both(r) == (p(r) && q(r)) by {
            if replaced_by_any(r, init) {
                let i = choose|i: int| 0 <= i < init.len() && r.replaced_by(#[trigger] init[i]);
                assert(r.replaced_by(rows[i]));
            }
            if r.replaced_by(last) {
                assert(r.replaced_by(rows[rows.len() - 1]));
            }
            if replaced_by_any(r, rows) {
                let i = choose|i: int| 0 <= i < rows.len() && r.replaced_by(#[trigger] rows[i]);
                if i < init.len() {
                    assert(r.replaced_by(init[i]));
                }
            }
        }
        lemma_filter_twice(s.rows, p, q, both);
        lemma_filter_concat(s.rows.filter(p), survivors(init), q);
        assert(s.after_all(puts(rows)).rows =~= s.rows.filter(both) + survivors(rows));
    }
}

/// The survivors of `rows` are among them.
pub proof fn lemma_survivors_from(rows: Seq<Row>, row: Row)
    requires
        survivors(rows).contains(row),
    ensures
        rows.contains(row),
    decreases rows.len(),
{
    if rows.len() > 0 {
        let init = rows.drop_last();
        let last = rows.last();
        let kept = kept_beside(survivors(init), last);
        let i = choose|i: int| 0 <= i < survivors(rows).len() && survivors(rows)[i] == row;
        if i < kept.len() {
            assert(kept[i] == row);
            lemma_filter_contains(survivors(init), |r: Row| !r.replaced_by(last), row);
            lemma_survivors_from(init, row);
            let j = choose|j: int| 0 <= j < init.len() && init[j] == row;
            assert(rows[j] == row);
        } else {
            assert(rows[rows.len() - 1] == row);
        }
    }
}

/// A row of `rows` that no later one replaces survives.
pub proof fn lemma_survives(rows: Seq<Row>, k: int)
    requires
        0 <= k < rows.len(),
        forall|j: int| k < j < rows.len() ==> !rows[k].replaced_by(#[trigger] rows[j]),
    ensures
        survivors(rows).contains(rows[k]),
    decreases rows.len(),
{
    let init = rows.drop_last();
    let last = rows.last();
    let kept = kept_beside(survivors(init), last);
    if k == rows.len() - 1 {
        assert(survivors(rows)[kept.len() as int] == rows[k]);
    } else {
        assert forall|j: int| k < j < init.len() implies !init[k].replaced_by(
            #[trigger] init[j],
        ) by {
            assert(!rows[k].replaced_by(rows[j]));
        }
        lemma_survives(init, k);
        assert(!rows[k].replaced_by(rows[rows.len() - 1]));
        lemma_filter_contains(survivors(init), |r: Row| !r.replaced_by(last), rows[k]);
        let i = choose|i: int| 0 <= i < kept.len() && kept[i] == rows[k];
        assert(survivors(rows)[i] == rows[k]);
    }
}

/// Inserting the same keyed rows once more changes nothing.
pub proof fn lemma_puts_twice(s: Store, rows: Seq<Row>)
    requires
        forall|i: int| 0 <= i < rows.len() ==> (#[trigger] rows[i]).keyed(),
    ensures
        s.after_all(puts(rows)).after_all(puts(rows)).rows == s.after_all(puts(rows)).rows,
{
    let once = s.after_all(puts(rows));
    let keep = |r: Row| !replaced_by_any(r, rows);
    lemma_puts(s, rows);
    lemma_puts(once, rows);
    let base = s.rows.filter(keep);
    lemma_filter_concat(base, survivors(rows), keep);
    assert forall|r: Row| #[trigger] base.contains(r) implies keep(r) by {
        lemma_filter_contains(s.rows, keep, r);
    }
    lemma_filter_all(base, keep);
    assert forall|r: Row| #[trigger] survivors(rows).contains(r) implies !keep(r) by {
        lemma_survivors_from(rows, r);
        let i = choose|i: int| 0 <= i < rows.len() && rows[i] == r;
        assert(r.replaced_by(rows[i]));
    }
    lemma_filter_none(survivors(rows), keep);
    assert(base + Seq::<Row>::empty() =~= base);
}

impl Table {
    /// The name of a table.
    pub open spec fn name(self) -> Seq<char> {
        match self {
            Table::EthTransfers => "eth_transfers"@,
            Table::Erc20Transfers => "erc20_transfers"@,
            Table::GasPayments => "gas_payments"@,
            Table::UnattributedDeltas => "unattributed_deltas"@,
        }
    }
}

/// The statement that deletes the rows of a block is the same for every table, but for
/// the name of the table: it asks for the chain and the hash.
pub proof fn rows_are_deleted_alike_from_every_table(table: Table)
    ensures
        table.delete_text() == "DELETE FROM "@ + table.name()
            + " WHERE chain_id=?1 AND block_hash=?2"@,
{
    reveal_strlit("DELETE FROM ");
    reveal_strlit(" WHERE chain_id=?1 AND block_hash=?2");
    match table {
        Table::EthTransfers => {
            reveal_strlit("eth_transfers");
            reveal_strlit("DELETE FROM eth_transfers WHERE chain_id=?1 AND block_hash=?2");
        },
        Table::Erc20Transfers => {
            reveal_strlit("erc20_transfers");
            reveal_strlit("DELETE FROM erc20_transfers WHERE chain_id=?1 AND block_hash=?2");
        },
        Table::GasPayments => {
            reveal_strlit("gas_payments");
            reveal_strlit("DELETE FROM gas_payments WHERE chain_id=?1 AND block_hash=?2");
        },
        Table::UnattributedDeltas => {
            reveal_strlit("unattributed_deltas");
            reveal_strlit("DELETE FROM unattributed_deltas WHERE chain_id=?1 AND block_hash=?2");
        },
    }
    assert(table.delete_text() =~= "DELETE FROM "@ + table.name()
        + " WHERE chain_id=?1 AND block_hash=?2"@);
}

/// The statement that inserts a row replaces a row of the same key, in the table of the
/// row.
pub proof fn rows_are_inserted_into_their_table(table: Table)
    ensures
        ({
            let start = "INSERT OR REPLACE INTO "@ + table.name() + " VALUES ("@;
            table.put_text().len() > start.len() && table.put_text().take(start.len() as int)
                == start
        }),
{
    reveal_strlit("INSERT OR REPLACE INTO ");
    reveal_strlit(" VALUES (");
    match table {
        Table::EthTransfers => {
            reveal_strlit("eth_transfers");
            reveal_strlit(
                "INSERT OR REPLACE INTO eth_transfers VALUES (?1,?2,?3,?4,?5,?6,?7,?8,?9,?10,?11)",
            );
        },
        Table::Erc20Transfers => {
            reveal_strlit("erc20_transfers");
            reveal_strlit(
                "INSERT OR REPLACE INTO erc20_transfers VALUES (?1,?2,?3,?4,?5,?6,?7,?8,?9,?10,?11)",
            );
        },
        Table::GasPayments => {
            reveal_strlit("gas_payments");
            reveal_strlit(
                "INSERT OR REPLACE INTO gas_payments VALUES (?1,?2,?3,?4,?5,?6,?7,?8,?9,?10)",
            );
        },
        Table::UnattributedDeltas => {
            reveal_strlit("unattributed_deltas");
            reveal_strlit(
                "INSERT OR REPLACE INTO unattributed_deltas VALUES (?1,?2,?3,?4,?5,?6,?7,?8)",
            );
        },
    }
    let start = "INSERT OR REPLACE INTO "@ + table.name() + " VALUES ("@;
    assert(table.put_text().take(start.len() as int) =~= start);
}

} // verus!
