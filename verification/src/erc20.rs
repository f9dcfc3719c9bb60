//! Token transfers, read from transaction logs.

use vstd::prelude::*;
use crate::model::Direction;
use crate::primitives;
use crate::primitives::{Address, B256, U256};
use crate::watched::WatchedSet;

verus! {

/// keccak256("Transfer(address,address,uint256)").
pub open spec fn transfer_topic() -> B256 {
    B256 {
        word: U256 {
            l3: 0xddf2_52ad_1be2_c89b,
            l2: 0x69c2_b068_fc37_8daa,
            l1: 0x952b_a7f1_63c4_a116,
            l0: 0x28f5_5a4d_f523_b3ef,
        },
    }
}

/// The first topic of a token transfer.
pub fn transfer_topic0() -> (r: B256)
    ensures
        r == transfer_topic(),
{
    B256 {
        word: U256 {
            l3: 0xddf2_52ad_1be2_c89b,
            l2: 0x69c2_b068_fc37_8daa,
            l1: 0x952b_a7f1_63c4_a116,
            l0: 0x28f5_5a4d_f523_b3ef,
        },
    }
}

/// A log as a contract emitted it.
#[derive(Clone, Debug)]
pub struct RawLog {
    pub address: Address,
    pub topics: Vec<B256>,
    pub data: Vec<u8>,
}

/// What a [`RawLog`] says.
pub struct Log {
    pub address: Address,
    pub topics: Seq<B256>,
    pub data: Seq<u8>,
}

impl View for RawLog {
    type V = Log;

    open spec fn view(&self) -> Log {
        Log { address: self.address, topics: self.topics@, data: self.data@ }
    }
}

/// A token transfer to or from a watched address.
#[derive(Clone, Debug)]
pub struct DecodedTransfer {
    pub token: Address,
    pub from: Address,
    pub to: Address,
    pub amount: U256,
    /// The watched parties, each with its direction.
    pub matched: Vec<(Address, Direction)>,
}

impl Log {
    /// Whether the log has the shape of a token transfer: the topic, two indexed
    /// parties and at least one word of data.
    pub open spec fn is_transfer(self) -> bool {
        &&& self.topics.len() == 3
        &&& self.topics[0] == transfer_topic()
        &&& self.data.len() >= 32
    }

    pub open spec fn sender(self) -> Address {
        primitives::word_address(self.topics[1])
    }

    pub open spec fn recipient(self) -> Address {
        primitives::word_address(self.topics[2])
    }

    /// The amount: the first word of the data.
    pub open spec fn amount(self) -> nat {
        primitives::be_value(self.data.take(32))
    }

    /// The watched parties of a transfer: the recipient first, taking in, and
    /// the sender, giving out.
    pub open spec fn matches(self, watched: Set<Address>) -> Seq<(Address, Direction)> {
        let inward = if watched.contains(self.recipient()) {
            seq![(self.recipient(), Direction::In)]
        } else {
            Seq::empty()
        };
        let outward = if watched.contains(self.sender()) {
            seq![(self.sender(), Direction::Out)]
        } else {
            Seq::empty()
        };
        inward + outward
    }

    /// Whether the log is a transfer with a watched party.
    pub open spec fn concerns(self, watched: Set<Address>) -> bool {
        self.is_transfer() && (watched.contains(self.sender()) || watched.contains(
            self.recipient(),
        ))
    }
}

/// Reads a log as a token transfer; `None` unless it is one with a watched
/// party.
pub fn decode_transfer(log: &RawLog, watched: &WatchedSet) -> (r: Option<DecodedTransfer>)
    ensures
        match r {
            None => !log@.concerns(watched@),
            Some(t) => {
                &&& log@.concerns(watched@)
                &&& t.token == log.address
                &&& t.from == log@.sender()
                &&& t.to == log@.recipient()
                &&& t.amount@ == log@.amount()
                &&& t.matched@ == log@.matches(watched@)
            },
        },
{
    if log.topics.len() != 3 || log.topics[0] != transfer_topic0() {
        return None;
    }
    let from = Address::from_word(&log.topics[1]);
    let to = Address::from_word(&log.topics[2]);
    if log.data.len() < 32 {
        return None;
    }
    let word = vstd::slice::slice_subrange(log.data.as_slice(), 0, 32);
    proof {
        assert(word@ =~= log@.data.take(32));
    }
    let amount = U256::from_be_slice(word);
    let mut matched: Vec<(Address, Direction)> = Vec::new();
    if watched.contains(&to) {
        matched.push((to, Direction::In));
    }
    if watched.contains(&from) {
        matched.push((from, Direction::Out));
    }
    proof {
        assert(matched@ =~= log@.matches(watched@));
    }
    if matched.len() == 0 {
        return None;
    }
    Some(DecodedTransfer { token: log.address, from, to, amount, matched })
}

/// A transfer between two watched addresses is recorded for both.
pub proof fn both_watched_parties_match(log: Log, watched: Set<Address>)
    requires
        log.is_transfer(),
        watched.contains(log.sender()),
        watched.contains(log.recipient()),
    ensures
        log.matches(watched) == seq![
            (log.recipient(), Direction::In),
            (log.sender(), Direction::Out),
        ],
{
}

} // verus!
