//! What the rows of a block say of what happened in it, and that they add up.

use vstd::prelude::*;
use crate::attribution;
use crate::balance;
use crate::committed;
use crate::erc20::Log;
use crate::exex::{Failure, Inputs};
use crate::model::{
    Direction, Erc20TransferRow, EthKind, EthTransfer, UnattributedDeltaCause, UnattributedDeltaRow,
};
use crate::primitives;
use crate::primitives::{Address, U256};
use crate::reconcile;
use crate::system::Credit;
use crate::text;

verus! {

/// Whether a log is a token transfer: it has the event's topic, two indexed parties
/// and a word of data.
pub open spec fn looks_like_a_transfer(log: Log) -> bool {
    &&& log.topics.len() == 3
    &&& log.topics[0]@
        == 0xddf252ad1be2c89b69c2b068fc378daa952ba7f163c4a11628f55a4df523b3efint
    &&& log.data.len() >= 32
}

/// Whether an address is the one in the last twenty bytes of a topic.
pub open spec fn is_in_topic(address: Address, log: Log, topic: int) -> bool {
    address@ == log.topics[topic]@ % primitives::two_160()
}

/// Whether a row tells of a log as it is: who sent what to whom, and in which
/// transaction; and for which of the two it was booked.
pub open spec fn tells_of_log(row: Erc20TransferRow, i: Inputs, k: int) -> bool {
    let log = i.logs[k].log;
    &&& row.chain_id == i.chain_id
    &&& row.block_number == i.block_number
    &&& row.block_hash == i.block_hash
    &&& Some(row.tx_hash) == i.logs[k].tx_hash
    &&& row.log_index == i.logs[k].log_index
    &&& row.token == log.address
    &&& is_in_topic(row.from, log, 1)
    &&& is_in_topic(row.to, log, 2)
    &&& row.amount@ == primitives::be_value(log.data.take(32))
    &&& row.address == match row.direction {
        Direction::In => row.to,
        Direction::Out => row.from,
    }
}

/// Whether token rows hold one for a log, of an address and a direction.
pub open spec fn has_token_row(
    rows: Seq<Erc20TransferRow>,
    i: Inputs,
    k: int,
    address: Address,
    direction: Direction,
) -> bool {
    exists|r: int|
        0 <= r < rows.len() && tells_of_log(#[trigger] rows[r], i, k) && rows[r].address == address
            && rows[r].direction == direction
}

/// Whether token rows are those of the logs: each is of a token transfer and of a
/// watched party, and each watched party of a token transfer has its row, the
/// recipient an incoming and the sender an outgoing one.
pub open spec fn books_every_token_transfer(rows: Seq<Erc20TransferRow>, i: Inputs) -> bool {
    &&& forall|r: int|
        0 <= r < rows.len() ==> i.watched.contains((#[trigger] rows[r]).address) && exists|k: int|
            0 <= k < i.logs.len() && looks_like_a_transfer((#[trigger] i.logs[k]).log)
                && tells_of_log(rows[r], i, k)
    &&& forall|k: int, a: Address|
        #![trigger i.logs[k], i.watched.contains(a)]
        0 <= k < i.logs.len() && looks_like_a_transfer(i.logs[k].log) && i.watched.contains(a)
            && is_in_topic(a, i.logs[k].log, 2) ==> has_token_row(rows, i, k, a, Direction::In)
    &&& forall|k: int, a: Address|
        #![trigger i.logs[k], i.watched.contains(a)]
        0 <= k < i.logs.len() && looks_like_a_transfer(i.logs[k].log) && i.watched.contains(a)
            && is_in_topic(a, i.logs[k].log, 1) ==> has_token_row(rows, i, k, a, Direction::Out)
}

/// The shape of a token transfer, and its parties.
pub(crate) proof fn lemma_transfer(log: Log)
    ensures
        looks_like_a_transfer(log) <==> log.is_transfer(),
        is_in_topic(log.sender(), log, 1),
        is_in_topic(log.recipient(), log, 2),
{
    let topic = crate::erc20::transfer_topic();
    assert(topic@ == 0xddf252ad1be2c89b69c2b068fc378daa952ba7f163c4a11628f55a4df523b3efint);
    if log.topics.len() > 0 && log.topics[0]@ == topic@ {
        log.topics[0].lemma_injective(topic);
    }
    primitives::lemma_word_address(log.topics[1]);
    primitives::lemma_word_address(log.topics[2]);
}

proof fn lemma_log_rows(i: Inputs, k: int)
    requires
        0 <= k < i.logs.len(),
        i.transfers_have_txs(),
    ensures
        forall|r: int|
            0 <= r < i.log_rows(k).len() ==> looks_like_a_transfer(i.logs[k].log)
                && i.watched.contains((#[trigger] i.log_rows(k)[r]).address) && tells_of_log(
                i.log_rows(k)[r],
                i,
                k,
            ),
        forall|a: Address|
            #[trigger] i.watched.contains(a) && looks_like_a_transfer(i.logs[k].log) && is_in_topic(
                a,
                i.logs[k].log,
                2,
            ) ==> has_token_row(i.log_rows(k), i, k, a, Direction::In),
        forall|a: Address|
            #[trigger] i.watched.contains(a) && looks_like_a_transfer(i.logs[k].log) && is_in_topic(
                a,
                i.logs[k].log,
                1,
            ) ==> has_token_row(i.log_rows(k), i, k, a, Direction::Out),
{
    let log = i.logs[k].log;
    let rows = i.log_rows(k);
    let parties = log.matches(i.watched);
    lemma_transfer(log);
    lemma_amount(log);
    assert forall|r: int| 0 <= r < rows.len() implies looks_like_a_transfer(log)
        && i.watched.contains((#[trigger] rows[r]).address) && tells_of_log(rows[r], i, k) by {
        assert(rows[r] == i.erc20_row(k, parties[r]));
    }
    assert forall|a: Address| #[trigger]
        i.watched.contains(a) && looks_like_a_transfer(log) && is_in_topic(a, log, 2) implies has_token_row(
        rows,
        i,
        k,
        a,
        Direction::In,
    ) by {
        a.lemma_injective(log.recipient());
        assert(parties[0] == (a, Direction::In));
        assert(rows[0] == i.erc20_row(k, parties[0]));
        assert(tells_of_log(rows[0], i, k));
    }
    assert forall|a: Address| #[trigger]
        i.watched.contains(a) && looks_like_a_transfer(log) && is_in_topic(a, log, 1) implies has_token_row(
        rows,
        i,
        k,
        a,
        Direction::Out,
    ) by {
        a.lemma_injective(log.sender());
        let r = parties.len() - 1;
        assert(parties[r] == (a, Direction::Out));
        assert(rows[r] == i.erc20_row(k, parties[r]));
        assert(tells_of_log(rows[r], i, k));
    }
}

proof fn lemma_amount(log: Log)
    requires
        log.data.len() >= 32 || !looks_like_a_transfer(log),
    ensures
        looks_like_a_transfer(log) ==> U256::number(log.amount())@ == primitives::be_value(
            log.data.take(32),
        ),
{
    if looks_like_a_transfer(log) {
        primitives::lemma_word_value_bound(log.data.take(32));
        U256::lemma_number_of(log.amount());
    }
}

/// What is said of the rows of the first `n` logs.
proof fn lemma_token_rows(i: Inputs, n: nat)
    requires
        n <= i.logs.len(),
        i.transfers_have_txs(),
    ensures
        ({
            let rows = i.erc20_rows(n);
            &&& forall|r: int|
                0 <= r < rows.len() ==> i.watched.contains((#[trigger] rows[r]).address)
                    && exists|k: int|
                    0 <= k < n && looks_like_a_transfer((#[trigger] i.logs[k]).log) && tells_of_log(
                        rows[r],
                        i,
                        k,
                    )
            &&& forall|k: int, a: Address|
                #![trigger i.logs[k], i.watched.contains(a)]
                0 <= k < n && looks_like_a_transfer(i.logs[k].log) && i.watched.contains(a)
                    && is_in_topic(a, i.logs[k].log, 2) ==> has_token_row(
                    rows,
                    i,
                    k,
                    a,
                    Direction::In,
                )
            &&& forall|k: int, a: Address|
                #![trigger i.logs[k], i.watched.contains(a)]
                0 <= k < n && looks_like_a_transfer(i.logs[k].log) && i.watched.contains(a)
                    && is_in_topic(a, i.logs[k].log, 1) ==> has_token_row(
                    rows,
                    i,
                    k,
                    a,
                    Direction::Out,
                )
        }),
    decreases n,
{
    if n > 0 {
        let m = n - 1;
        lemma_token_rows(i, m as nat);
        lemma_log_rows(i, m);
        let rows = i.erc20_rows(n);
        let before = i.erc20_rows(m as nat);
        let added = i.log_rows(m);
        assert forall|r: int| 0 <= r < rows.len() implies i.watched.contains(
            (#[trigger] rows[r]).address,
        ) && exists|k: int|
            0 <= k < n && looks_like_a_transfer((#[trigger] i.logs[k]).log) && tells_of_log(
                rows[r],
                i,
                k,
            ) by {
            if r < before.len() {
                assert(rows[r] == before[r]);
                let k = choose|k: int|
                    0 <= k < m && looks_like_a_transfer((#[trigger] i.logs[k]).log)
                        && tells_of_log(before[r], i, k);
                assert(tells_of_log(rows[r], i, k));
            } else {
                assert(rows[r] == added[r - before.len()]);
                assert(tells_of_log(rows[r], i, m));
                assert(looks_like_a_transfer(i.logs[m].log));
            }
        }
        assert(rows == before + added);
        assert forall|k: int, a: Address|
            #![trigger i.logs[k], i.watched.contains(a)]
            0 <= k < n && looks_like_a_transfer(i.logs[k].log) && i.watched.contains(a)
                && is_in_topic(a, i.logs[k].log, 2) implies has_token_row(
            rows,
            i,
            k,
            a,
            Direction::In,
        ) by {
            lemma_token_row_stays(before, added, i, k, a, Direction::In);
        }
        assert forall|k: int, a: Address|
            #![trigger i.logs[k], i.watched.contains(a)]
            0 <= k < n && looks_like_a_transfer(i.logs[k].log) && i.watched.contains(a)
                && is_in_topic(a, i.logs[k].log, 1) implies has_token_row(
            rows,
            i,
            k,
            a,
            Direction::Out,
        ) by {
            lemma_token_row_stays(before, added, i, k, a, Direction::Out);
        }
    }
}

proof fn lemma_token_row_stays(
    a: Seq<Erc20TransferRow>,
    b: Seq<Erc20TransferRow>,
    i: Inputs,
    k: int,
    address: Address,
    d: Direction,
)
    requires
        has_token_row(a, i, k, address, d) || has_token_row(b, i, k, address, d),
    ensures
        has_token_row(a + b, i, k, address, d),
{
    if has_token_row(a, i, k, address, d) {
        let r = choose|r: int|
            0 <= r < a.len() && tells_of_log(#[trigger] a[r], i, k) && a[r].address == address
                && a[r].direction == d;
        assert((a + b)[r] == a[r]);
    } else {
        let r = choose|r: int|
            0 <= r < b.len() && tells_of_log(#[trigger] b[r], i, k) && b[r].address == address
                && b[r].direction == d;
        assert((a + b)[a.len() + r] == b[r]);
    }
}

/// A recorded block books every token transfer of a watched party, and no other: see
/// [`books_every_token_transfer`]. A block that is recorded without its frames does
/// so too.
pub proof fn every_token_transfer_is_booked(i: Inputs)
    requires
        i.transfers_have_txs(),
    ensures
        i.outcome() matches Ok(b) ==> books_every_token_transfer(b.erc20, i),
        committed::partial_outcome(i) matches Ok(b) ==> books_every_token_transfer(b.erc20, i),
{
    lemma_token_rows(i, i.logs.len());
}

/// Whether a row tells of a frame as it is, for the recipient or for the sender.
pub open spec fn tells_of_frame(row: EthTransfer, i: Inputs, k: int) -> bool {
    let e = i.frames[k];
    &&& row.chain_id == i.chain_id
    &&& row.block_number == i.block_number
    &&& row.block_hash == i.block_hash
    &&& row.tx_hash == e.tx_hash
    &&& row.reverted == e.reverted
    &&& row.amount_wei == e.frame.value
    &&& row.kind == if e.frame.trace_path.len() >= 3 && e.frame.trace_path.take(3) == "tx:"@ {
        EthKind::TopLevel
    } else {
        EthKind::Internal
    }
    &&& match row.direction {
        Direction::In => row.address == e.frame.to && row.counterparty == e.frame.from
            && row.trace_path == e.frame.trace_path,
        Direction::Out => row.address == e.frame.from && row.counterparty == e.frame.to
            && row.trace_path == e.frame.trace_path + ":out"@,
    }
}

/// Whether a row tells of a protocol credit or debit as it is.
pub open spec fn tells_of_credit(row: EthTransfer, i: Inputs, c: Credit) -> bool {
    &&& row.chain_id == i.chain_id
    &&& row.block_number == i.block_number
    &&& row.block_hash == i.block_hash
    &&& row.tx_hash == Some(i.block_hash)
    &&& !row.reverted
    &&& row.kind == EthKind::System
    &&& row.address == c.address
    &&& row.counterparty == c.counterparty
    &&& row.trace_path == "system:"@ + c.source + ":"@ + primitives::address_text(c.address)
    &&& match row.direction {
        Direction::In => c.signed_wei >= 0 && row.amount_wei == c.signed_wei,
        Direction::Out => c.signed_wei < 0 && row.amount_wei == -c.signed_wei,
    }
}

/// Whether native rows hold one of a frame and a direction.
pub open spec fn has_frame_row(
    rows: Seq<EthTransfer>,
    i: Inputs,
    k: int,
    direction: Direction,
) -> bool {
    exists|r: int|
        0 <= r < rows.len() && tells_of_frame(#[trigger] rows[r], i, k) && rows[r].direction
            == direction
}

/// Whether native rows hold one of a credit.
pub open spec fn has_credit_row(rows: Seq<EthTransfer>, i: Inputs, k: int) -> bool {
    exists|r: int| 0 <= r < rows.len() && tells_of_credit(#[trigger] rows[r], i, i.credits[k])
}

/// Whether native rows are those of the frames and of the credits: each is of a
/// watched address and of one of them; each frame has an incoming row for a watched
/// recipient and an outgoing one for a watched sender; each credit of a watched
/// address has a row.
pub open spec fn books_every_native_movement(rows: Seq<EthTransfer>, i: Inputs) -> bool {
    &&& forall|r: int|
        0 <= r < rows.len() ==> i.watched.contains((#[trigger] rows[r]).address) && ((exists|
            k: int,
        |
            0 <= k < i.frames.len() && #[trigger] tells_of_frame(rows[r], i, k)) || (exists|k: int|
            0 <= k < i.credits.len() && tells_of_credit(rows[r], i, #[trigger] i.credits[k])))
    &&& forall|k: int|
        0 <= k < i.frames.len() && i.watched.contains((#[trigger] i.frames[k]).frame.to)
            ==> has_frame_row(rows, i, k, Direction::In)
    &&& forall|k: int|
        0 <= k < i.frames.len() && i.watched.contains((#[trigger] i.frames[k]).frame.from)
            ==> has_frame_row(rows, i, k, Direction::Out)
    &&& forall|k: int|
        0 <= k < i.credits.len() && i.watched.contains((#[trigger] i.credits[k]).address)
            ==> has_credit_row(rows, i, k)
}

proof fn lemma_one_frame(i: Inputs, k: int)
    requires
        0 <= k < i.frames.len(),
    ensures
        ({
            let rows = attribution::frame_rows(i.context(k), i.frames[k].frame, i.watched);
            &&& forall|r: int|
                0 <= r < rows.len() ==> i.watched.contains((#[trigger] rows[r]).address)
                    && tells_of_frame(rows[r], i, k)
            &&& i.watched.contains(i.frames[k].frame.to) ==> has_frame_row(
                rows,
                i,
                k,
                Direction::In,
            )
            &&& i.watched.contains(i.frames[k].frame.from) ==> has_frame_row(
                rows,
                i,
                k,
                Direction::Out,
            )
        }),
{
    let f = i.frames[k].frame;
    let rows = attribution::frame_rows(i.context(k), f, i.watched);
    reveal_strlit("tx:");
    assert(text::has_tx_prefix(f.trace_path) <==> f.trace_path.len() >= 3 && f.trace_path.take(3)
        == "tx:"@) by {
        if f.trace_path.len() >= 3 {
            let start = f.trace_path.take(3);
            assert(start[0] == f.trace_path[0] && start[1] == f.trace_path[1] && start[2]
                == f.trace_path[2]);
            assert("tx:"@[0] == 't' && "tx:"@[1] == 'x' && "tx:"@[2] == ':');
            if text::has_tx_prefix(f.trace_path) {
                assert(f.trace_path.take(3) =~= "tx:"@);
            }
        }
    }
    if i.watched.contains(f.to) {
        assert(tells_of_frame(rows[0], i, k));
    }
    if i.watched.contains(f.from) {
        assert(tells_of_frame(rows[rows.len() - 1], i, k));
    }
}

proof fn lemma_native_frames(i: Inputs, n: nat)
    requires
        n <= i.frames.len(),
    ensures
        ({
            let rows = i.frame_rows(n);
            &&& forall|r: int|
                0 <= r < rows.len() ==> i.watched.contains((#[trigger] rows[r]).address)
                    && exists|k: int| 0 <= k < n && #[trigger] tells_of_frame(rows[r], i, k)
            &&& forall|k: int|
                0 <= k < n && i.watched.contains((#[trigger] i.frames[k]).frame.to)
                    ==> has_frame_row(rows, i, k, Direction::In)
            &&& forall|k: int|
                0 <= k < n && i.watched.contains((#[trigger] i.frames[k]).frame.from)
                    ==> has_frame_row(rows, i, k, Direction::Out)
        }),
    decreases n,
{
    if n > 0 {
        let m = n - 1;
        lemma_native_frames(i, m as nat);
        lemma_one_frame(i, m);
        let rows = i.frame_rows(n);
        let before = i.frame_rows(m as nat);
        let added = attribution::frame_rows(i.context(m), i.frames[m].frame, i.watched);
        assert forall|r: int| 0 <= r < rows.len() implies i.watched.contains(
            (#[trigger] rows[r]).address,
        ) && exists|k: int| 0 <= k < n && #[trigger] tells_of_frame(rows[r], i, k) by {
            if r < before.len() {
                assert(rows[r] == before[r]);
                let k = choose|k: int| 0 <= k < m && #[trigger] tells_of_frame(before[r], i, k);
                assert(tells_of_frame(rows[r], i, k));
            } else {
                assert(rows[r] == added[r - before.len()]);
                assert(tells_of_frame(rows[r], i, m));
            }
        }
        assert(rows == before + added);
        assert forall|k: int|
            0 <= k < n && i.watched.contains((#[trigger] i.frames[k]).frame.to) implies has_frame_row(
            rows,
            i,
            k,
            Direction::In,
        ) by {
            lemma_frame_row_stays(before, added, i, k, Direction::In);
        }
        assert forall|k: int|
            0 <= k < n && i.watched.contains(
                (#[trigger] i.frames[k]).frame.from,
            ) implies has_frame_row(rows, i, k, Direction::Out) by {
            lemma_frame_row_stays(before, added, i, k, Direction::Out);
        }
    }
}

proof fn lemma_frame_row_stays(
    a: Seq<EthTransfer>,
    b: Seq<EthTransfer>,
    i: Inputs,
    k: int,
    d: Direction,
)
    requires
        has_frame_row(a, i, k, d) || has_frame_row(b, i, k, d),
    ensures
        has_frame_row(a + b, i, k, d),
{
    if has_frame_row(a, i, k, d) {
        let r = choose|r: int|
            0 <= r < a.len() && tells_of_frame(#[trigger] a[r], i, k) && a[r].direction == d;
        assert((a + b)[r] == a[r]);
    } else {
        let r = choose|r: int|
            0 <= r < b.len() && tells_of_frame(#[trigger] b[r], i, k) && b[r].direction == d;
        assert((a + b)[a.len() + r] == b[r]);
    }
}

proof fn lemma_native_credits(i: Inputs, n: nat)
    requires
        n <= i.credits.len(),
    ensures
        ({
            let rows = i.system_rows(n);
            &&& forall|r: int|
                0 <= r < rows.len() ==> i.watched.contains((#[trigger] rows[r]).address)
                    && exists|k: int|
                    0 <= k < n && tells_of_credit(rows[r], i, #[trigger] i.credits[k])
            &&& forall|k: int|
                0 <= k < n && i.watched.contains((#[trigger] i.credits[k]).address)
                    ==> has_credit_row(rows, i, k)
        }),
    decreases n,
{
    if n > 0 {
        let m = n - 1;
        lemma_native_credits(i, m as nat);
        let rows = i.system_rows(n);
        let before = i.system_rows(m as nat);
        let c = i.credits[m];
        assert(tells_of_credit(i.system_row(c), i, c));
        assert forall|r: int| 0 <= r < rows.len() implies i.watched.contains(
            (#[trigger] rows[r]).address,
        ) && exists|k: int| 0 <= k < n && tells_of_credit(rows[r], i, #[trigger] i.credits[k]) by {
            if r < before.len() {
                assert(rows[r] == before[r]);
                let k = choose|k: int|
                    0 <= k < m && tells_of_credit(before[r], i, #[trigger] i.credits[k]);
                assert(tells_of_credit(rows[r], i, i.credits[k]));
            } else {
                assert(tells_of_credit(rows[r], i, i.credits[m]));
            }
        }
        assert forall|k: int|
            0 <= k < n && i.watched.contains((#[trigger] i.credits[k]).address) implies has_credit_row(
            rows,
            i,
            k,
        ) by {
            if k < m {
                let r = choose|r: int|
                    0 <= r < before.len() && tells_of_credit(
                        #[trigger] before[r],
                        i,
                        i.credits[k],
                    );
                assert(rows[r] == before[r]);
            } else {
                assert(rows[before.len() as int] == i.system_row(c));
            }
        }
    }
}

/// A recorded block books every native movement of a watched address, and no other:
/// see [`books_every_native_movement`]. A block that is recorded without its frames
/// does so too, for the credits that are known.
pub proof fn every_native_movement_is_booked(i: Inputs)
    ensures
        i.outcome() matches Ok(b) ==> books_every_native_movement(b.eth, i),
        committed::partial_outcome(i) matches Ok(b) ==> books_every_native_movement(b.eth, i),
{
    lemma_native_frames(i, i.frames.len());
    lemma_native_credits(i, i.credits.len());
    let f = i.frame_rows(i.frames.len());
    let s = i.system_rows(i.credits.len());
    let rows = f + s;
    assert forall|r: int| 0 <= r < rows.len() implies i.watched.contains(
        (#[trigger] rows[r]).address,
    ) && ((exists|k: int| 0 <= k < i.frames.len() && #[trigger] tells_of_frame(rows[r], i, k)) || (
    exists|k: int|
        0 <= k < i.credits.len() && tells_of_credit(rows[r], i, #[trigger] i.credits[k]))) by {
        if r < f.len() {
            assert(rows[r] == f[r]);
            let k = choose|k: int|
                0 <= k < i.frames.len() && #[trigger] tells_of_frame(f[r], i, k);
            assert(tells_of_frame(rows[r], i, k));
        } else {
            assert(rows[r] == s[r - f.len()]);
            let k = choose|k: int|
                0 <= k < i.credits.len() && tells_of_credit(
                    s[r - f.len()],
                    i,
                    #[trigger] i.credits[k],
                );
            assert(tells_of_credit(rows[r], i, i.credits[k]));
        }
    }
    assert forall|k: int, d: Direction| #[trigger]
        has_frame_row(f, i, k, d) implies has_frame_row(rows, i, k, d) by {
        lemma_frame_row_stays(f, s, i, k, d);
    }
    assert forall|k: int| #[trigger] has_credit_row(s, i, k) implies has_credit_row(rows, i, k) by {
        let r = choose|r: int|
            0 <= r < s.len() && tells_of_credit(#[trigger] s[r], i, i.credits[k]);
        assert(rows[f.len() + r] == s[r]);
    }
}

/// The fees of a recorded block are those that were collected; a block that is
/// recorded whole has no marker.
pub proof fn every_collected_fee_is_booked(i: Inputs)
    ensures
        i.outcome() matches Ok(b) ==> b.gas == i.gas && b.unattributed.len() == 0 && b.chain_id
            == i.chain_id && b.block_number == i.block_number && b.block_hash == i.block_hash,
        committed::partial_outcome(i) matches Ok(b) ==> b.gas == i.gas && b.chain_id == i.chain_id
            && b.block_number == i.block_number && b.block_hash == i.block_hash,
{
}

/// A block that is recorded without its frames has the same token and fee rows as
/// one that is recorded with them, and its native rows are the others' of the
/// protocol: only what the frames tell is missing.
pub proof fn only_frame_rows_are_missing_without_frames(i: Inputs, j: Inputs)
    requires
        j == (Inputs { frames: j.frames, ..i }),
        i.frames.len() == 0,
        committed::partial_outcome(i) is Ok,
        j.outcome() is Ok,
    ensures
        ({
            let p = committed::partial_outcome(i)->Ok_0;
            let b = j.outcome()->Ok_0;
            &&& p.erc20 == b.erc20
            &&& p.gas == b.gas
            &&& p.eth.len() <= b.eth.len()
            &&& p.eth == b.eth.skip(b.eth.len() - p.eth.len())
        }),
{
    lemma_same_tokens(i, j, i.logs.len());
    lemma_same_system(i, j, i.credits.len());
    let p = committed::partial_outcome(i)->Ok_0;
    let b = j.outcome()->Ok_0;
    assert(p.eth =~= i.system_rows(i.credits.len()));
    assert(b.eth.skip(b.eth.len() - p.eth.len()) =~= p.eth);
}

proof fn lemma_same_tokens(i: Inputs, j: Inputs, n: nat)
    requires
        j == (Inputs { frames: j.frames, ..i }),
    ensures
        i.erc20_rows(n) == j.erc20_rows(n),
    decreases n,
{
    if n > 0 {
        lemma_same_tokens(i, j, (n - 1) as nat);
        assert(i.log_rows(n - 1) =~= j.log_rows(n - 1));
    }
}

proof fn lemma_same_system(i: Inputs, j: Inputs, n: nat)
    requires
        j == (Inputs { frames: j.frames, ..i }),
    ensures
        i.system_rows(n) == j.system_rows(n),
    decreases n,
{
    if n > 0 {
        lemma_same_system(i, j, (n - 1) as nat);
    }
}

/// The magnitude of a number.
pub open spec fn size(n: int) -> int {
    if n >= 0 {
        n
    } else {
        -n
    }
}

/// How much of an observed change the protocol's part accounts for: as much as goes
/// the same way, and no more than the change.
pub open spec fn accounted_for(observed: int, system: int) -> int {
    if (observed > 0 && system > 0) || (observed < 0 && system < 0) {
        if size(system) <= size(observed) {
            size(system)
        } else {
            size(observed)
        }
    } else {
        0
    }
}

/// Whether a marker is of an observed change: what was observed, what of it the
/// protocol accounts for, and what stays open, which is something.
pub open spec fn marks_change(row: UnattributedDeltaRow, i: Inputs, k: int) -> bool {
    let (address, observed) = i.deltas[k];
    let system = balance::worth(i.credits, address);
    &&& row.chain_id == i.chain_id
    &&& row.block_number == i.block_number
    &&& row.block_hash == i.block_hash
    &&& row.address == address
    &&& row.cause == UnattributedDeltaCause::ParentStateUnavailable
    &&& row.observed_wei@ == size(observed as int)
    &&& row.attributed_wei@ == accounted_for(observed as int, system)
    &&& row.residual_wei@ == size(observed as int) - accounted_for(observed as int, system)
    &&& row.residual_wei@ > 0
}

proof fn lemma_worth(i: Inputs, address: Address, n: nat)
    requires
        n <= i.credits.len(),
    ensures
        i.credited(address, n) == balance::worth(i.credits.take(n as int), address),
    decreases n,
{
    if n > 0 {
        lemma_worth(i, address, (n - 1) as nat);
        assert(i.credits.take(n as int).drop_last() =~= i.credits.take(n - 1));
    }
}

proof fn lemma_one_marker(i: Inputs, k: int)
    requires
        0 <= k < i.deltas.len(),
    ensures
        ({
            let (address, observed) = i.deltas[k];
            let open = size(observed as int) - accounted_for(
                observed as int,
                balance::worth(i.credits, address),
            );
            &&& open > 0 ==> committed::marker(i, k).len() == 1 && marks_change(
                committed::marker(i, k)[0],
                i,
                k,
            )
            &&& open == 0 ==> committed::marker(i, k).len() == 0
            &&& open >= 0
        }),
{
    let (address, observed) = i.deltas[k];
    lemma_worth(i, address, i.credits.len());
    assert(i.credits.take(i.credits.len() as int) =~= i.credits);
    let (o, a, r) = reconcile::partial_attribution(
        observed as int,
        i.credited(address, i.credits.len()),
    );
    U256::lemma_number_of(o);
    U256::lemma_number_of(a);
    U256::lemma_number_of(r);
}

proof fn lemma_all_markers(i: Inputs, n: nat)
    requires
        n <= i.deltas.len(),
    ensures
        ({
            let rows = committed::markers(i, n);
            &&& forall|r: int|
                0 <= r < rows.len() ==> i.watched.contains((#[trigger] rows[r]).address)
                    && exists|k: int| 0 <= k < n && #[trigger] marks_change(rows[r], i, k)
            &&& forall|k: int|
                0 <= k < n && i.watched.contains((#[trigger] i.deltas[k]).0) && size(
                    i.deltas[k].1 as int,
                ) > accounted_for(i.deltas[k].1 as int, balance::worth(i.credits, i.deltas[k].0))
                    ==> exists|r: int| 0 <= r < rows.len() && marks_change(#[trigger] rows[r], i, k)
        }),
    decreases n,
{
    if n > 0 {
        let m = n - 1;
        lemma_all_markers(i, m as nat);
        lemma_one_marker(i, m);
        let before = committed::markers(i, m as nat);
        let added = committed::marker(i, m);
        let rows = committed::markers(i, n);
        assert forall|r: int| 0 <= r < rows.len() implies i.watched.contains(
            (#[trigger] rows[r]).address,
        ) && exists|k: int| 0 <= k < n && #[trigger] marks_change(rows[r], i, k) by {
            if r < before.len() {
                assert(rows[r] == before[r]);
                let k = choose|k: int| 0 <= k < m && #[trigger] marks_change(before[r], i, k);
                assert(marks_change(rows[r], i, k));
            } else {
                assert(rows[r] == added[r - before.len()]);
                assert(marks_change(rows[r], i, m));
            }
        }
        assert forall|k: int|
            0 <= k < n && i.watched.contains((#[trigger] i.deltas[k]).0) && size(
                i.deltas[k].1 as int,
            ) > accounted_for(
                i.deltas[k].1 as int,
                balance::worth(i.credits, i.deltas[k].0),
            ) implies exists|r: int|
            0 <= r < rows.len() && marks_change(#[trigger] rows[r], i, k) by {
            if k < m {
                let r = choose|r: int|
                    0 <= r < before.len() && marks_change(#[trigger] before[r], i, k);
                assert(rows[r] == before[r]);
            } else {
                assert(rows[before.len() as int] == added[0]);
            }
        }
    }
}

/// A block that is recorded without its frames marks every observed change of a
/// watched address of which something stays open, and no other: with what was
/// observed, what the protocol accounts for and what stays open.
pub proof fn every_open_change_is_marked(i: Inputs)
    requires
        committed::partial_outcome(i) is Ok,
    ensures
        ({
            let rows = committed::partial_outcome(i)->Ok_0.unattributed;
            &&& forall|r: int|
                0 <= r < rows.len() ==> i.watched.contains((#[trigger] rows[r]).address)
                    && exists|k: int|
                    0 <= k < i.deltas.len() && #[trigger] marks_change(rows[r], i, k)
            &&& forall|k: int|
                0 <= k < i.deltas.len() && i.watched.contains((#[trigger] i.deltas[k]).0) && size(
                    i.deltas[k].1 as int,
                ) > accounted_for(i.deltas[k].1 as int, balance::worth(i.credits, i.deltas[k].0))
                    ==> exists|r: int| 0 <= r < rows.len() && marks_change(#[trigger] rows[r], i, k)
        }),
{
    lemma_all_markers(i, i.deltas.len());
}

/// A block that is recorded without its frames is never refused for a residual: only
/// credits that leave the range keep it from being recorded.
pub proof fn a_block_without_frames_is_recorded(i: Inputs)
    ensures
        balance::credits_fit(i) ==> committed::partial_outcome(i) is Ok,
        committed::partial_outcome(i) matches Err(f) ==> f matches Failure::ReconcileOverflow {
            block,
            address,
        } && block == i.block_number && i.watched.contains(address),
{
    balance::lemma_overflow_is_of_credits(i, 0);
}

} // verus!
