//! Writing to the ledger.

use vstd::prelude::*;
use crate::attribution;
use crate::ledger::tables;
use crate::ledger::tables::{MetaKey, Op, Row, SqlValue, Statement, Table, Value};
use crate::model::{
    Erc20TransferRow, EthTransfer, EthTransferRow, GasPaymentRow, UnattributedDeltaCause,
    UnattributedDeltaRow,
};
use crate::primitives;
use crate::primitives::{Address, B256, U256};
use crate::text;
use crate::watched::WatchedSet;

verus! {

/// Everything one block adds to the ledger.
#[derive(Clone, Debug)]
pub struct BlockBatch {
    pub chain_id: u64,
    pub block_number: u64,
    pub block_hash: B256,
    pub eth: Vec<EthTransferRow>,
    pub erc20: Vec<Erc20TransferRow>,
    pub gas: Vec<GasPaymentRow>,
    pub unattributed: Vec<UnattributedDeltaRow>,
}

/// What a [`BlockBatch`] says.
pub struct Batch {
    pub chain_id: u64,
    pub block_number: u64,
    pub block_hash: B256,
    pub eth: Seq<EthTransfer>,
    pub erc20: Seq<Erc20TransferRow>,
    pub gas: Seq<GasPaymentRow>,
    pub unattributed: Seq<UnattributedDeltaRow>,
}

impl View for BlockBatch {
    type V = Batch;

    open spec fn view(&self) -> Batch {
        Batch {
            chain_id: self.chain_id,
            block_number: self.block_number,
            block_hash: self.block_hash,
            eth: attribution::eth_rows_view(self.eth@),
            erc20: self.erc20@,
            gas: self.gas@,
            unattributed: self.unattributed@,
        }
    }
}

/// A hash as it is stored.
pub open spec fn hash_value(h: B256) -> Value {
    Value::Text(primitives::b256_text(h))
}

/// An address as it is stored.
pub open spec fn address_value(a: Address) -> Value {
    Value::Text(primitives::address_text(a))
}

/// A number as it is stored.
pub open spec fn number_value(n: nat) -> Value {
    Value::Text(text::decimal(n))
}

/// A native-value movement as it is stored.
pub open spec fn eth_record(r: EthTransfer) -> Row {
    Row {
        table: Table::EthTransfers,
        values: seq![
            Value::Integer(r.chain_id as int),
            Value::Integer(r.block_number as int),
            hash_value(r.block_hash),
            match r.tx_hash {
                Some(h) => hash_value(h),
                None => Value::Null,
            },
            Value::Text(r.trace_path),
            address_value(r.address),
            Value::Text(r.direction.spelling()),
            address_value(r.counterparty),
            number_value(r.amount_wei),
            Value::Text(r.kind.spelling()),
            Value::Integer(
                if r.reverted {
                    1
                } else {
                    0
                },
            ),
        ],
    }
}

/// A token transfer as it is stored.
pub open spec fn erc20_record(r: Erc20TransferRow) -> Row {
    Row {
        table: Table::Erc20Transfers,
        values: seq![
            Value::Integer(r.chain_id as int),
            Value::Integer(r.block_number as int),
            hash_value(r.block_hash),
            hash_value(r.tx_hash),
            Value::Integer(r.log_index as int),
            address_value(r.token),
            address_value(r.from),
            address_value(r.to),
            number_value(r.amount@),
            address_value(r.address),
            Value::Text(r.direction.spelling()),
        ],
    }
}

/// A fee as it is stored.
pub open spec fn gas_record(r: GasPaymentRow) -> Row {
    Row {
        table: Table::GasPayments,
        values: seq![
            Value::Integer(r.chain_id as int),
            Value::Integer(r.block_number as int),
            hash_value(r.block_hash),
            hash_value(r.tx_hash),
            address_value(r.address),
            Value::Integer(r.gas_used as int),
            number_value(r.effective_gas_price as nat),
            number_value(r.l2_fee_wei@),
            match r.l1_fee_wei {
                Some(f) => number_value(f@),
                None => Value::Null,
            },
            number_value(r.total_wei@),
        ],
    }
}

/// An unattributed change as it is stored.
pub open spec fn unattributed_record(r: UnattributedDeltaRow) -> Row {
    Row {
        table: Table::UnattributedDeltas,
        values: seq![
            Value::Integer(r.chain_id as int),
            Value::Integer(r.block_number as int),
            hash_value(r.block_hash),
            address_value(r.address),
            number_value(r.observed_wei@),
            number_value(r.attributed_wei@),
            number_value(r.residual_wei@),
            Value::Text(r.cause.spelling()),
        ],
    }
}

impl Batch {
    pub open spec fn eth_records(self) -> Seq<Row> {
        Seq::new(self.eth.len(), |i: int| eth_record(self.eth[i]))
    }

    pub open spec fn erc20_records(self) -> Seq<Row> {
        Seq::new(self.erc20.len(), |i: int| erc20_record(self.erc20[i]))
    }

    pub open spec fn gas_records(self) -> Seq<Row> {
        Seq::new(self.gas.len(), |i: int| gas_record(self.gas[i]))
    }

    pub open spec fn unattributed_records(self) -> Seq<Row> {
        Seq::new(self.unattributed.len(), |i: int| unattributed_record(self.unattributed[i]))
    }

    /// All rows of the batch as they are stored.
    pub open spec fn records(self) -> Seq<Row> {
        self.eth_records() + self.erc20_records() + self.gas_records()
            + self.unattributed_records()
    }

    /// The statements that write the batch.
    pub open spec fn ops(self) -> Seq<Op> {
        tables::puts(self.records()) + advance_ops(self.block_number, self.block_hash)
    }

    /// Every row has a whole key.
    pub open spec fn keyed(self) -> bool {
        forall|i: int| 0 <= i < self.eth.len() ==> (#[trigger] self.eth[i]).tx_hash is Some
    }

    /// Every row is of the batch's own block.
    pub open spec fn of_one_block(self) -> bool {
        &&& forall|i: int|
            0 <= i < self.eth.len() ==> (#[trigger] self.eth[i]).chain_id == self.chain_id
                && self.eth[i].block_hash == self.block_hash
        &&& forall|i: int|
            0 <= i < self.erc20.len() ==> (#[trigger] self.erc20[i]).chain_id == self.chain_id
                && self.erc20[i].block_hash == self.block_hash
        &&& forall|i: int|
            0 <= i < self.gas.len() ==> (#[trigger] self.gas[i]).chain_id == self.chain_id
                && self.gas[i].block_hash == self.block_hash
        &&& forall|i: int|
            0 <= i < self.unattributed.len() ==> (#[trigger] self.unattributed[i]).chain_id
                == self.chain_id && self.unattributed[i].block_hash == self.block_hash
    }
}

/// The statements that note a block as the last one.
pub open spec fn advance_ops(block_number: u64, block_hash: B256) -> Seq<Op> {
    seq![
        Op::SetMeta { key: MetaKey::LastBlock, value: text::decimal(block_number as nat) },
        Op::SetMeta { key: MetaKey::LastBlockHash, value: primitives::b256_text(block_hash) },
    ]
}

fn hash_sql(h: &B256) -> (r: SqlValue)
    ensures
        r@ == hash_value(*h),
{
    SqlValue::Text(h.to_hex())
}

fn address_sql(a: &Address) -> (r: SqlValue)
    ensures
        r@ == address_value(*a),
{
    SqlValue::Text(a.to_hex())
}

fn number_sql(n: &U256) -> (r: SqlValue)
    ensures
        r@ == number_value(n@),
{
    SqlValue::Text(n.to_decimal())
}

fn eth_statement(r: &EthTransferRow) -> (s: Statement)
    ensures
        s@ == Op::Put(eth_record(r@)),
{
    let mut values: Vec<SqlValue> = Vec::new();
    values.push(SqlValue::Unsigned(r.chain_id));
    values.push(SqlValue::Unsigned(r.block_number));
    values.push(hash_sql(&r.block_hash));
    values.push(
        match &r.tx_hash {
            Some(h) => hash_sql(h),
            None => SqlValue::Null,
        },
    );
    values.push(SqlValue::Text(r.trace_path.clone()));
    values.push(address_sql(&r.address));
    values.push(SqlValue::Text(r.direction.as_str().to_owned()));
    values.push(address_sql(&r.counterparty));
    values.push(number_sql(&r.amount_wei));
    values.push(SqlValue::Text(r.kind.as_str().to_owned()));
    values.push(
        SqlValue::Signed(
            if r.reverted {
                1
            } else {
                0
            },
        ),
    );
    assert(tables::values_view(values@) =~= eth_record(r@).values);
    Statement::Put { table: Table::EthTransfers, values }
}

fn erc20_statement(r: &Erc20TransferRow) -> (s: Statement)
    ensures
        s@ == Op::Put(erc20_record(*r)),
{
    let mut values: Vec<SqlValue> = Vec::new();
    values.push(SqlValue::Unsigned(r.chain_id));
    values.push(SqlValue::Unsigned(r.block_number));
    values.push(hash_sql(&r.block_hash));
    values.push(hash_sql(&r.tx_hash));
    values.push(SqlValue::Unsigned(r.log_index));
    values.push(address_sql(&r.token));
    values.push(address_sql(&r.from));
    values.push(address_sql(&r.to));
    values.push(number_sql(&r.amount));
    values.push(address_sql(&r.address));
    values.push(SqlValue::Text(r.direction.as_str().to_owned()));
    assert(tables::values_view(values@) =~= erc20_record(*r).values);
    Statement::Put { table: Table::Erc20Transfers, values }
}

fn gas_statement(r: &GasPaymentRow) -> (s: Statement)
    ensures
        s@ == Op::Put(gas_record(*r)),
{
    let mut values: Vec<SqlValue> = Vec::new();
    values.push(SqlValue::Unsigned(r.chain_id));
    values.push(SqlValue::Unsigned(r.block_number));
    values.push(hash_sql(&r.block_hash));
    values.push(hash_sql(&r.tx_hash));
    values.push(address_sql(&r.address));
    values.push(SqlValue::Unsigned(r.gas_used));
    values.push(SqlValue::Text(text::decimal_text(r.effective_gas_price)));
    values.push(number_sql(&r.l2_fee_wei));
    values.push(
        match &r.l1_fee_wei {
            Some(f) => number_sql(f),
            None => SqlValue::Null,
        },
    );
    values.push(number_sql(&r.total_wei));
    assert(tables::values_view(values@) =~= gas_record(*r).values);
    Statement::Put { table: Table::GasPayments, values }
}

fn unattributed_statement(r: &UnattributedDeltaRow) -> (s: Statement)
    ensures
        s@ == Op::Put(unattributed_record(*r)),
{
    let mut values: Vec<SqlValue> = Vec::new();
    values.push(SqlValue::Unsigned(r.chain_id));
    values.push(SqlValue::Unsigned(r.block_number));
    values.push(hash_sql(&r.block_hash));
    values.push(address_sql(&r.address));
    values.push(number_sql(&r.observed_wei));
    values.push(number_sql(&r.attributed_wei));
    values.push(number_sql(&r.residual_wei));
    values.push(SqlValue::Text(r.cause.as_str().to_owned()));
    assert(tables::values_view(values@) =~= unattributed_record(*r).values);
    Statement::Put { table: Table::UnattributedDeltas, values }
}

fn push_advance(statements: &mut Vec<Statement>, block_number: u64, block_hash: &B256)
    ensures
        tables::ops_view(final(statements)@) == tables::ops_view(old(statements)@) + advance_ops(
            block_number,
            *block_hash,
        ),
{
    let ghost before = tables::ops_view(statements@);
    statements.push(
        Statement::SetMeta {
            key: MetaKey::LastBlock,
            value: text::decimal_text(block_number as u128),
        },
    );
    statements.push(
        Statement::SetMeta { key: MetaKey::LastBlockHash, value: block_hash.to_hex() },
    );
    assert(tables::ops_view(statements@) =~= before + advance_ops(block_number, *block_hash));
}

/// The transaction that writes a block: its rows, and the block as the last one.
pub fn write_block(b: &BlockBatch) -> (r: Vec<Statement>)
    ensures
        tables::ops_view(r@) == b@.ops(),
{
    let ghost all = tables::puts(b@.records());
    let ghost eth = b@.eth_records();
    let ghost erc20 = b@.erc20_records();
    let ghost gas = b@.gas_records();
    let ghost rest = b@.unattributed_records();
    let mut out: Vec<Statement> = Vec::new();
    let mut k: usize = 0;
    assert(tables::ops_view(out@) =~= all.take(0));
    while k < b.eth.len()
        invariant
            k <= b.eth@.len(),
            eth == b@.eth_records(),
            all == tables::puts(b@.records()),
            tables::ops_view(out@) == all.take(k as int),
        decreases b.eth@.len() - k,
    {
        let s = eth_statement(&b.eth[k]);
        proof {
            tables::lemma_ops_push(out@, s);
            assert(b@.records()[k as int] == eth[k as int]);
            assert(all.take(k + 1) =~= all.take(k as int).push(all[k as int]));
        }
        out.push(s);
        k += 1;
    }
    let mut k: usize = 0;
    while k < b.erc20.len()
        invariant
            k <= b.erc20@.len(),
            eth == b@.eth_records(),
            erc20 == b@.erc20_records(),
            all == tables::puts(b@.records()),
            tables::ops_view(out@) == all.take(eth.len() + k),
        decreases b.erc20@.len() - k,
    {
        let s = erc20_statement(&b.erc20[k]);
        let ghost at = eth.len() + k;
        proof {
            tables::lemma_ops_push(out@, s);
            assert(b@.records()[at] == erc20[k as int]);
            assert(all.take(at + 1) =~= all.take(at).push(all[at]));
        }
        out.push(s);
        k += 1;
    }
    let mut k: usize = 0;
    while k < b.gas.len()
        invariant
            k <= b.gas@.len(),
            eth == b@.eth_records(),
            erc20 == b@.erc20_records(),
            gas == b@.gas_records(),
            all == tables::puts(b@.records()),
            tables::ops_view(out@) == all.take(eth.len() + erc20.len() + k),
        decreases b.gas@.len() - k,
    {
        let s = gas_statement(&b.gas[k]);
        let ghost at = eth.len() + erc20.len() + k;
        proof {
            tables::lemma_ops_push(out@, s);
            assert(b@.records()[at] == gas[k as int]);
            assert(all.take(at + 1) =~= all.take(at).push(all[at]));
        }
        out.push(s);
        k += 1;
    }
    let mut k: usize = 0;
    while k < b.unattributed.len()
        invariant
            k <= b.unattributed@.len(),
            eth == b@.eth_records(),
            erc20 == b@.erc20_records(),
            gas == b@.gas_records(),
            rest == b@.unattributed_records(),
            all == tables::puts(b@.records()),
            tables::ops_view(out@) == all.take(eth.len() + erc20.len() + gas.len() + k),
        decreases b.unattributed@.len() - k,
    {
        let s = unattributed_statement(&b.unattributed[k]);
        let ghost at = eth.len() + erc20.len() + gas.len() + k;
        proof {
            tables::lemma_ops_push(out@, s);
            assert(b@.records()[at] == rest[k as int]);
            assert(all.take(at + 1) =~= all.take(at).push(all[at]));
        }
        out.push(s);
        k += 1;
    }
    assert(all.take(all.len() as int) =~= all);
    push_advance(&mut out, b.block_number, &b.block_hash);
    out
}

/// The transaction that records an unattributed change on its own.
pub fn write_unattributed(r: &UnattributedDeltaRow) -> (s: Vec<Statement>)
    ensures
        tables::ops_view(s@) == tables::puts(seq![unattributed_record(*r)]),
{
    let mut out: Vec<Statement> = Vec::new();
    out.push(unattributed_statement(r));
    assert(tables::ops_view(out@) =~= tables::puts(seq![unattributed_record(*r)]));
    out
}

/// The marker of a block that was never delivered, for one address.
pub open spec fn gap_row(
    chain_id: u64,
    block_number: u64,
    block_hash: B256,
    address: Address,
) -> UnattributedDeltaRow {
    UnattributedDeltaRow {
        chain_id,
        block_number,
        block_hash,
        address,
        observed_wei: U256 { l0: 0, l1: 0, l2: 0, l3: 0 },
        attributed_wei: U256 { l0: 0, l1: 0, l2: 0, l3: 0 },
        residual_wei: U256 { l0: 0, l1: 0, l2: 0, l3: 0 },
        cause: UnattributedDeltaCause::BlockNotDelivered,
    }
}

/// The rows that mark a block that was never delivered.
pub open spec fn gap_records(
    chain_id: u64,
    block_number: u64,
    block_hash: B256,
    addresses: Seq<Address>,
) -> Seq<Row> {
    Seq::new(
        addresses.len(),
        |i: int| unattributed_record(gap_row(chain_id, block_number, block_hash, addresses[i])),
    )
}

/// The statements that mark a block that was never delivered.
pub open spec fn gap_ops(
    chain_id: u64,
    block_number: u64,
    block_hash: B256,
    addresses: Seq<Address>,
) -> Seq<Op> {
    tables::puts(gap_records(chain_id, block_number, block_hash, addresses)) + advance_ops(
        block_number,
        block_hash,
    )
}

/// The transaction that marks a block that was never delivered: a row of nothing
/// for each watched address, and the block as the last one. It goes on to the
/// next block also where nothing is watched.
pub fn write_gap_block_marker(
    chain_id: u64,
    block_number: u64,
    block_hash: B256,
    watched: &WatchedSet,
) -> (r: Vec<Statement>)
    ensures
        tables::ops_view(r@) == gap_ops(chain_id, block_number, block_hash, watched.order()),
{
    let addresses = watched.members();
    let ghost all = tables::puts(
        gap_records(chain_id, block_number, block_hash, addresses@),
    );
    let mut out: Vec<Statement> = Vec::new();
    let mut k: usize = 0;
    assert(tables::ops_view(out@) =~= all.take(0));
    while k < addresses.len()
        invariant
            k <= addresses@.len(),
            all == tables::puts(gap_records(chain_id, block_number, block_hash, addresses@)),
            tables::ops_view(out@) == all.take(k as int),
        decreases addresses@.len() - k,
    {
        let row = UnattributedDeltaRow {
            chain_id,
            block_number,
            block_hash,
            address: addresses[k],
            observed_wei: U256::zero(),
            attributed_wei: U256::zero(),
            residual_wei: U256::zero(),
            cause: UnattributedDeltaCause::BlockNotDelivered,
        };
        let s = unattributed_statement(&row);
        proof {
            let wanted = gap_row(chain_id, block_number, block_hash, addresses@[k as int]);
            row.observed_wei.lemma_injective(wanted.observed_wei);
            assert(row == wanted);
            tables::lemma_ops_push(out@, s);
            assert(all.take(k + 1) =~= all.take(k as int).push(all[k as int]));
        }
        out.push(s);
        k += 1;
    }
    assert(all.take(all.len() as int) =~= all);
    push_advance(&mut out, block_number, &block_hash);
    out
}

/// The statements that delete the rows of a block.
pub open spec fn delete_ops(chain_id: u64, block_hash: B256) -> Seq<Op> {
    let hash = primitives::b256_text(block_hash);
    seq![
        Op::DeleteBlock { table: Table::EthTransfers, chain_id: chain_id as int, block_hash: hash },
        Op::DeleteBlock {
            table: Table::Erc20Transfers,
            chain_id: chain_id as int,
            block_hash: hash,
        },
        Op::DeleteBlock { table: Table::GasPayments, chain_id: chain_id as int, block_hash: hash },
        Op::DeleteBlock {
            table: Table::UnattributedDeltas,
            chain_id: chain_id as int,
            block_hash: hash,
        },
    ]
}

/// The statements that delete the rows of the first `n` blocks.
pub open spec fn delete_all_ops(chain_id: u64, hashes: Seq<B256>, n: nat) -> Seq<Op>
    decreases n,
{
    if n == 0 {
        Seq::empty()
    } else {
        delete_all_ops(chain_id, hashes, (n - 1) as nat) + delete_ops(chain_id, hashes[n - 1])
    }
}

/// The transaction that deletes the rows of reverted blocks.
pub fn delete_blocks(chain_id: u64, hashes: &[B256]) -> (r: Vec<Statement>)
    ensures
        tables::ops_view(r@) == delete_all_ops(chain_id, hashes@, hashes@.len()),
{
    let mut out: Vec<Statement> = Vec::new();
    let mut k: usize = 0;
    assert(tables::ops_view(out@) =~= delete_all_ops(chain_id, hashes@, 0));
    while k < hashes.len()
        invariant
            k <= hashes@.len(),
            tables::ops_view(out@) == delete_all_ops(chain_id, hashes@, k as nat),
        decreases hashes@.len() - k,
    {
        let ghost before = tables::ops_view(out@);
        let hash = hashes[k].to_hex();
        out.push(
            Statement::DeleteBlock {
                table: Table::EthTransfers,
                chain_id,
                block_hash: hash.clone(),
            },
        );
        out.push(
            Statement::DeleteBlock {
                table: Table::Erc20Transfers,
                chain_id,
                block_hash: hash.clone(),
            },
        );
        out.push(
            Statement::DeleteBlock {
                table: Table::GasPayments,
                chain_id,
                block_hash: hash.clone(),
            },
        );
        out.push(
            Statement::DeleteBlock {
                table: Table::UnattributedDeltas,
                chain_id,
                block_hash: hash,
            },
        );
        assert(tables::ops_view(out@) =~= before + delete_ops(chain_id, hashes@[k as int]));
        k += 1;
    }
    out
}

} // verus!
