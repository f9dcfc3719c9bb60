//! What to do next while following a chain.
//!
//! The driver is told what happened and says what to do: delete the rows of
//! reverted blocks first, mark blocks that were never delivered, process and
//! write every committed block in order, and only then report a height as
//! finished. Whatever fails is tried again, after a pause that doubles up to a
//! limit; nothing is ever skipped.

use vstd::prelude::*;
use crate::exex;
use crate::exex::{Failure, Inputs, ProcessingError};
use crate::ledger::laws as ledger_laws;
use crate::ledger::tables::{MetaKey, Store};
use crate::ledger::writer::{Batch, BlockBatch};
use crate::model::{UnattributedDeltaCause, UnattributedDeltaRow};
use crate::primitives;
use crate::primitives::{Address, B256, U256};
use crate::reconcile;
use crate::text;

verus! {

/// The first pause, in milliseconds.
pub const BACKOFF_START_MS: u64 = 200;

/// The longest pause, in milliseconds.
pub const BACKOFF_CAP_MS: u64 = 30000;

/// A block's number and hash.
#[derive(Clone, Copy, Debug, PartialEq, Eq, Structural)]
pub struct BlockId {
    pub number: u64,
    pub hash: B256,
}

/// What came of processing a block.
#[derive(Clone, Copy, Debug)]
pub enum Processed {
    /// It is ready to be written.
    Batch,
    /// An address does not reconcile.
    Residual { block: u64, address: Address, residual: i128 },
    /// Something else is wrong.
    Failed,
}

/// What happened.
#[derive(Clone, Debug)]
pub enum Event {
    /// Blocks were reverted, or committed, or both.
    Notification { reverted: Vec<BlockId>, committed: Vec<BlockId> },
    /// Whether reverted blocks were deleted.
    Deleted(bool),
    /// The hash of an undelivered block, if it could be had.
    GapHash(Option<B256>),
    /// Whether an undelivered block was marked.
    GapMarked(bool),
    /// What came of processing a block.
    Processed(Processed),
    /// Whether a block was written.
    BlockWritten(bool),
    /// An unexplained residual was recorded, or could not be.
    DiagnosticWritten,
    /// A pause is over.
    Slept,
    /// Whether a finished height was reported.
    Reported(bool),
}

/// What to do.
#[derive(Clone, Debug)]
pub enum Action {
    /// Wait for a notification.
    Await,
    /// Delete the rows of these blocks.
    DeleteBlocks { hashes: Vec<B256> },
    /// Find out the hash of a block.
    FetchGapHash { number: u64 },
    /// Mark a block as never delivered.
    WriteGapMarker { block: BlockId },
    /// Process the committed block at this place.
    ProcessBlock { index: usize },
    /// Write the committed block at this place, as it was processed.
    WriteBlock { index: usize },
    /// Record an unexplained residual.
    WriteDiagnostic { row: UnattributedDeltaRow },
    /// Pause.
    Sleep { ms: u64 },
    /// Report that everything up to this block is stored.
    ReportFinished { block: BlockId },
    /// There is nobody to report to any more.
    Stop,
}

/// What a pause leads back to.
#[derive(Clone, Debug)]
enum Resume {
    Deleting { reverted: Vec<BlockId> },
    Gap { next: u64, last: u64 },
    Block { index: usize },
}

/// Where the driver is.
#[derive(Clone, Debug)]
enum Phase {
    Idle,
    Deleting { reverted: Vec<BlockId> },
    FetchingGap { next: u64, last: u64 },
    MarkingGap { next: u64, last: u64, hash: B256 },
    Processing { index: usize },
    Writing { index: usize },
    Diagnosing { index: usize, row: UnattributedDeltaRow },
    Pausing { ms: u64, resume: Resume },
    Reporting { block: BlockId },
    Stopped,
}

/// Follows a chain.
pub struct Driver {
    chain_id: u64,
    /// The last block in the ledger.
    high_water: Option<u64>,
    /// The last tip that was written and not yet reported.
    pending: Option<BlockId>,
    /// The committed blocks of the notification in hand.
    blocks: Vec<BlockId>,
    backoff_ms: u64,
    phase: Phase,
}

/// What a pause leads back to.
pub enum Back {
    Deleting { reverted: Seq<BlockId> },
    Gap { next: u64, last: u64 },
    Block { index: nat },
}

/// Where the driver is.
pub enum Place {
    Idle,
    Deleting { reverted: Seq<BlockId> },
    FetchingGap { next: u64, last: u64 },
    MarkingGap { next: u64, last: u64, hash: B256 },
    Processing { index: nat },
    Writing { index: nat },
    Diagnosing { index: nat, row: UnattributedDeltaRow },
    Pausing { ms: u64, back: Back },
    Reporting { block: BlockId },
    Stopped,
}

/// What a [`Driver`] is.
pub struct State {
    pub chain_id: u64,
    pub high_water: Option<u64>,
    pub pending: Option<BlockId>,
    pub blocks: Seq<BlockId>,
    pub backoff_ms: u64,
    pub place: Place,
}

/// What an [`Event`] says.
pub enum Happening {
    Notification { reverted: Seq<BlockId>, committed: Seq<BlockId> },
    Deleted(bool),
    GapHash(Option<B256>),
    GapMarked(bool),
    Processed(Processed),
    BlockWritten(bool),
    DiagnosticWritten,
    Slept,
    Reported(bool),
}

/// What an [`Action`] says.
pub enum Order {
    Await,
    DeleteBlocks { hashes: Seq<B256> },
    FetchGapHash { number: u64 },
    WriteGapMarker { block: BlockId },
    ProcessBlock { index: nat },
    WriteBlock { index: nat },
    WriteDiagnostic { row: UnattributedDeltaRow },
    Sleep { ms: u64 },
    ReportFinished { block: BlockId },
    Stop,
}

impl View for Resume {
    type V = Back;

    closed spec fn view(&self) -> Back {
        match self {
            Resume::Deleting { reverted } => Back::Deleting { reverted: reverted@ },
            Resume::Gap { next, last } => Back::Gap { next: *next, last: *last },
            Resume::Block { index } => Back::Block { index: *index as nat },
        }
    }
}

impl View for Phase {
    type V = Place;

    closed spec fn view(&self) -> Place {
        match self {
            Phase::Idle => Place::Idle,
            Phase::Deleting { reverted } => Place::Deleting { reverted: reverted@ },
            Phase::FetchingGap { next, last } => Place::FetchingGap { next: *next, last: *last },
            Phase::MarkingGap { next, last, hash } => Place::MarkingGap {
                next: *next,
                last: *last,
                hash: *hash,
            },
            Phase::Processing { index } => Place::Processing { index: *index as nat },
            Phase::Writing { index } => Place::Writing { index: *index as nat },
            Phase::Diagnosing { index, row } => Place::Diagnosing {
                index: *index as nat,
                row: *row,
            },
            Phase::Pausing { ms, resume } => Place::Pausing { ms: *ms, back: resume@ },
            Phase::Reporting { block } => Place::Reporting { block: *block },
            Phase::Stopped => Place::Stopped,
        }
    }
}

impl View for Driver {
    type V = State;

    closed spec fn view(&self) -> State {
        State {
            chain_id: self.chain_id,
            high_water: self.high_water,
            pending: self.pending,
            blocks: self.blocks@,
            backoff_ms: self.backoff_ms,
            place: self.phase@,
        }
    }
}

impl View for Event {
    type V = Happening;

    open spec fn view(&self) -> Happening {
        match self {
            Event::Notification { reverted, committed } => Happening::Notification {
                reverted: reverted@,
                committed: committed@,
            },
            Event::Deleted(ok) => Happening::Deleted(*ok),
            Event::GapHash(h) => Happening::GapHash(*h),
            Event::GapMarked(ok) => Happening::GapMarked(*ok),
            Event::Processed(p) => Happening::Processed(*p),
            Event::BlockWritten(ok) => Happening::BlockWritten(*ok),
            Event::DiagnosticWritten => Happening::DiagnosticWritten,
            Event::Slept => Happening::Slept,
            Event::Reported(ok) => Happening::Reported(*ok),
        }
    }
}

impl View for Action {
    type V = Order;

    open spec fn view(&self) -> Order {
        match self {
            Action::Await => Order::Await,
            Action::DeleteBlocks { hashes } => Order::DeleteBlocks { hashes: hashes@ },
            Action::FetchGapHash { number } => Order::FetchGapHash { number: *number },
            Action::WriteGapMarker { block } => Order::WriteGapMarker { block: *block },
            Action::ProcessBlock { index } => Order::ProcessBlock { index: *index as nat },
            Action::WriteBlock { index } => Order::WriteBlock { index: *index as nat },
            Action::WriteDiagnostic { row } => Order::WriteDiagnostic { row: *row },
            Action::Sleep { ms } => Order::Sleep { ms: *ms },
            Action::ReportFinished { block } => Order::ReportFinished { block: *block },
            Action::Stop => Order::Stop,
        }
    }
}

/// The blocks between the last one in the ledger and the first committed one, as
/// the first and the last of them; none if the ledger is new or there is no block
/// between.
pub open spec fn gap(high_water: Option<u64>, first: u64) -> Option<(u64, u64)> {
    match high_water {
        Some(h) => if h + 1 < first {
            Some(((h + 1) as u64, (first - 1) as u64))
        } else {
            None
        },
        None => None,
    }
}

/// [`gap`].
pub fn gap_range(high_water: Option<u64>, first: u64) -> (r: Option<(u64, u64)>)
    ensures
        r == gap(high_water, first),
{
    match high_water {
        Some(h) => if h < u64::MAX && h + 1 < first {
            Some((h + 1, first - 1))
        } else {
            None
        },
        None => None,
    }
}

/// The last stored block, from the stored texts of its number and its hash.
pub open spec fn stored_head(number: Option<String>, hash: Option<String>, head: Option<BlockId>) -> bool {
    match (number, hash) {
        (Some(n), Some(h)) => match (
            text::parsed_u64(n@),
            primitives::parse_hex(vstd::utf8::encode_utf8(h@), 64),
        ) {
            (Some(number), Ok(hash)) => head matches Some(b) && b.number == number && b.hash@
                == hash,
            _ => head is None,
        },
        _ => head is None,
    }
}

/// Where to resume after a restart: at the last stored block, where there is one.
pub fn resume_head(last_block: &Option<String>, last_block_hash: &Option<String>) -> (r: Option<
    BlockId,
>)
    ensures
        stored_head(*last_block, *last_block_hash, r),
{
    match (last_block, last_block_hash) {
        (Some(n), Some(h)) => match (text::parse_u64(n.as_str()), B256::parse(h.as_str())) {
            (Some(number), Some(hash)) => Some(BlockId { number, hash }),
            _ => None,
        },
        _ => None,
    }
}

/// The pause after a pause.
pub open spec fn doubled(ms: u64) -> u64 {
    if ms * 2 < BACKOFF_CAP_MS {
        (ms * 2) as u64
    } else {
        BACKOFF_CAP_MS
    }
}

fn double(ms: u64) -> (r: u64)
    ensures
        r == doubled(ms),
{
    if ms < BACKOFF_CAP_MS / 2 {
        ms * 2
    } else {
        BACKOFF_CAP_MS
    }
}

/// The row that records an unexplained residual. Nothing but the residual is known
/// here, so none of it is attributed.
pub open spec fn diagnostic(
    chain_id: u64,
    block_number: u64,
    block_hash: B256,
    address: Address,
    residual: i128,
) -> UnattributedDeltaRow {
    UnattributedDeltaRow {
        chain_id,
        block_number,
        block_hash,
        address,
        observed_wei: U256::number(reconcile::abs(residual as int)),
        attributed_wei: U256::number(0),
        residual_wei: U256::number(reconcile::abs(residual as int)),
        cause: UnattributedDeltaCause::UnexplainedResidual,
    }
}

/// [`diagnostic`].
pub fn diagnostic_row(
    chain_id: u64,
    block_number: u64,
    block_hash: B256,
    address: Address,
    residual: i128,
) -> (r: UnattributedDeltaRow)
    ensures
        r == diagnostic(chain_id, block_number, block_hash, address, residual),
{
    let magnitude = U256::from_u128(reconcile::magnitude(residual));
    let zero = U256::zero();
    proof {
        magnitude.lemma_number();
        zero.lemma_number();
    }
    UnattributedDeltaRow {
        chain_id,
        block_number,
        block_hash,
        address,
        observed_wei: magnitude,
        attributed_wei: zero,
        residual_wei: magnitude,
        cause: UnattributedDeltaCause::UnexplainedResidual,
    }
}

/// What came of processing a block, as the driver needs to know it.
pub open spec fn processed_as(outcome: Result<Batch, Failure>) -> Processed {
    match outcome {
        Ok(_) => Processed::Batch,
        Err(Failure::UnexplainedResidual { block, address, residual }) => Processed::Residual {
            block,
            address,
            residual: residual as i128,
        },
        Err(_) => Processed::Failed,
    }
}

/// [`processed_as`].
pub fn processed(outcome: &Result<BlockBatch, ProcessingError>) -> (r: Processed)
    ensures
        r == processed_as(exex::outcome_view(*outcome)),
{
    match outcome {
        Ok(_) => Processed::Batch,
        Err(ProcessingError::UnexplainedResidual {
            block,
            address,
            residual,
        }) => Processed::Residual { block: *block, address: *address, residual: *residual },
        Err(_) => Processed::Failed,
    }
}

/// The hashes of blocks.
pub open spec fn hashes_of(blocks: Seq<BlockId>) -> Seq<B256> {
    Seq::new(blocks.len(), |k: int| blocks[k].hash)
}

/// Whether a hash is of one of these blocks.
pub open spec fn is_among(hash: B256, blocks: Seq<BlockId>) -> bool {
    exists|k: int| 0 <= k < blocks.len() && (#[trigger] blocks[k]).hash == hash
}

/// The end of a chain that loses a block and all that follow it.
pub open spec fn cut_at(high_water: Option<u64>, number: u64) -> Option<u64> {
    match high_water {
        Some(h) => if number > h {
            Some(h)
        } else if number == 0 {
            None
        } else {
            Some((number - 1) as u64)
        },
        None => None,
    }
}

/// The end of a chain that loses these blocks and all that follow them.
pub open spec fn lowered(high_water: Option<u64>, blocks: Seq<BlockId>) -> Option<u64>
    decreases blocks.len(),
{
    if blocks.len() == 0 {
        high_water
    } else {
        cut_at(lowered(high_water, blocks.drop_last()), blocks.last().number)
    }
}

fn lowered_mark(high_water: Option<u64>, blocks: &Vec<BlockId>) -> (r: Option<u64>)
    ensures
        r == lowered(high_water, blocks@),
{
    let mut mark: Option<u64> = high_water;
    let mut k: usize = 0;
    assert(blocks@.take(0) =~= Seq::empty());
    while k < blocks.len()
        invariant
            k <= blocks@.len(),
            mark == lowered(high_water, blocks@.take(k as int)),
        decreases blocks@.len() - k,
    {
        let number: u64 = blocks[k].number;
        assert(blocks@.take(k + 1).drop_last() =~= blocks@.take(k as int));
        if let Some(h) = mark {
            if number <= h {
                mark = if number == 0 {
                    None
                } else {
                    Some(number - 1)
                };
            }
        }
        k += 1;
    }
    assert(blocks@.take(blocks@.len() as int) =~= blocks@);
    mark
}

fn has_hash(hash: B256, blocks: &Vec<BlockId>) -> (r: bool)
    ensures
        r == is_among(hash, blocks@),
{
    let mut k: usize = 0;
    while k < blocks.len()
        invariant
            k <= blocks@.len(),
            forall|j: int| 0 <= j < k ==> (#[trigger] blocks@[j]).hash != hash,
        decreases blocks@.len() - k,
    {
        if blocks[k].hash == hash {
            return true;
        }
        k += 1;
    }
    false
}

fn copy_hashes(blocks: &Vec<BlockId>) -> (r: Vec<B256>)
    ensures
        r@ == hashes_of(blocks@),
{
    let mut r: Vec<B256> = Vec::new();
    let mut k: usize = 0;
    while k < blocks.len()
        invariant
            k <= blocks@.len(),
            r@ == hashes_of(blocks@.take(k as int)),
        decreases blocks@.len() - k,
    {
        r.push(blocks[k].hash);
        assert(r@ =~= hashes_of(blocks@.take(k + 1)));
        k += 1;
    }
    assert(blocks@.take(blocks@.len() as int) =~= blocks@);
    r
}

fn copy_blocks(blocks: &Vec<BlockId>) -> (r: Vec<BlockId>)
    ensures
        r@ == blocks@,
{
    let r = blocks.clone();
    assert(r@ =~= blocks@);
    r
}

impl State {
    pub open spec fn start(chain_id: u64, high_water: Option<u64>) -> State {
        State {
            chain_id,
            high_water,
            pending: None,
            blocks: Seq::empty(),
            backoff_ms: BACKOFF_START_MS,
            place: Place::Idle,
        }
    }

    /// What to do where the driver is.
    pub open spec fn order(self) -> Order {
        match self.place {
            Place::Idle => Order::Await,
            Place::Deleting { reverted } => Order::DeleteBlocks { hashes: hashes_of(reverted) },
            Place::FetchingGap { next, .. } => Order::FetchGapHash { number: next },
            Place::MarkingGap { next, hash, .. } => Order::WriteGapMarker {
                block: BlockId { number: next, hash },
            },
            Place::Processing { index } => Order::ProcessBlock { index },
            Place::Writing { index } => Order::WriteBlock { index },
            Place::Diagnosing { row, .. } => Order::WriteDiagnostic { row },
            Place::Pausing { ms, .. } => Order::Sleep { ms },
            Place::Reporting { block } => Order::ReportFinished { block },
            Place::Stopped => Order::Stop,
        }
    }

    /// On to something new, with a short pause to begin with.
    pub open spec fn at(self, place: Place) -> State {
        State { place, backoff_ms: BACKOFF_START_MS, ..self }
    }

    /// A pause before trying again.
    pub open spec fn pausing(self, back: Back) -> State {
        State {
            place: Place::Pausing { ms: self.backoff_ms, back },
            backoff_ms: doubled(self.backoff_ms),
            ..self
        }
    }

    /// The reverted blocks are no longer in the ledger: it ends before them, and
    /// none of them is to be reported.
    pub open spec fn without(self, reverted: Seq<BlockId>) -> State {
        State {
            high_water: lowered(self.high_water, reverted),
            pending: match self.pending {
                Some(b) => if is_among(b.hash, reverted) {
                    None
                } else {
                    Some(b)
                },
                None => None,
            },
            ..self
        }
    }

    /// On to the committed blocks, filling the gap before them first.
    pub open spec fn at_committed(self) -> State {
        if self.blocks.len() == 0 {
            self.at(Place::Idle)
        } else {
            match gap(self.high_water, self.blocks[0].number) {
                Some((next, last)) => self.at(Place::FetchingGap { next, last }),
                None => self.at(Place::Processing { index: 0 }),
            }
        }
    }

    /// The committed block at a place is in the ledger. After the last one its
    /// tip takes the place of the tip before, which is reported.
    pub open spec fn written(self, index: nat) -> State {
        let done = State { high_water: Some(self.blocks[index as int].number), ..self };
        if index + 1 < self.blocks.len() {
            done.at(Place::Processing { index: index + 1 })
        } else {
            let waiting = State { pending: Some(self.blocks[index as int]), ..done };
            match self.pending {
                Some(block) => waiting.at(Place::Reporting { block }),
                None => waiting.at(Place::Idle),
            }
        }
    }

    /// Where the driver is after something happened. What does not belong there
    /// changes nothing.
    pub open spec fn next(self, h: Happening) -> State {
        match (self.place, h) {
            (Place::Idle, Happening::Notification { reverted, committed }) => {
                let s = State { blocks: committed, ..self };
                if reverted.len() > 0 {
                    s.at(Place::Deleting { reverted })
                } else {
                    s.at_committed()
                }
            },
            (Place::Deleting { reverted }, Happening::Deleted(ok)) => if ok {
                self.without(reverted).at_committed()
            } else {
                self.pausing(Back::Deleting { reverted })
            },
            (Place::FetchingGap { next, last }, Happening::GapHash(found)) => match found {
                Some(hash) => State { place: Place::MarkingGap { next, last, hash }, ..self },
                None => self.pausing(Back::Gap { next, last }),
            },
            (Place::MarkingGap { next, last, hash }, Happening::GapMarked(ok)) => if ok {
                let s = State { high_water: Some(next), ..self };
                if next < last {
                    s.at(Place::FetchingGap { next: (next + 1) as u64, last })
                } else {
                    s.at(Place::Processing { index: 0 })
                }
            } else {
                self.pausing(Back::Gap { next, last })
            },
            (Place::Processing { index }, Happening::Processed(p)) => match p {
                Processed::Batch => State { place: Place::Writing { index }, ..self },
                Processed::Residual { block, address, residual } => State {
                    place: Place::Diagnosing {
                        index,
                        row: diagnostic(
                            self.chain_id,
                            block,
                            self.blocks[index as int].hash,
                            address,
                            residual,
                        ),
                    },
                    ..self
                },
                Processed::Failed => self.pausing(Back::Block { index }),
            },
            (Place::Writing { index }, Happening::BlockWritten(ok)) => if ok {
                self.written(index)
            } else {
                self.pausing(Back::Block { index })
            },
            (Place::Diagnosing { index, .. }, Happening::DiagnosticWritten) => self.pausing(
                Back::Block { index },
            ),
            (Place::Pausing { back, .. }, Happening::Slept) => State {
                place: match back {
                    Back::Deleting { reverted } => Place::Deleting { reverted },
                    Back::Gap { next, last } => Place::FetchingGap { next, last },
                    Back::Block { index } => Place::Processing { index },
                },
                ..self
            },
            (Place::Reporting { .. }, Happening::Reported(ok)) => if ok {
                self.at(Place::Idle)
            } else {
                self.at(Place::Stopped)
            },
            _ => self,
        }
    }

    /// The place of the committed block in hand, if there is one.
    pub open spec fn index(self) -> Option<nat> {
        match self.place {
            Place::Processing { index } => Some(index),
            Place::Writing { index } => Some(index),
            Place::Diagnosing { index, .. } => Some(index),
            Place::Pausing { back: Back::Block { index }, .. } => Some(index),
            _ => None,
        }
    }

    /// The rest of the gap in hand, if there is one.
    pub open spec fn gap_in_hand(self) -> Option<(u64, u64)> {
        match self.place {
            Place::FetchingGap { next, last } => Some((next, last)),
            Place::MarkingGap { next, last, .. } => Some((next, last)),
            Place::Pausing { back: Back::Gap { next, last }, .. } => Some((next, last)),
            _ => None,
        }
    }

    /// A block in hand is one of the committed ones, a gap in hand has blocks in
    /// it, pauses are neither shorter than the first nor longer than the longest,
    /// and the pause after one is twice as long, up to the longest.
    pub open spec fn wf(self) -> bool {
        &&& self.index() matches Some(i) ==> i < self.blocks.len()
        &&& self.gap_in_hand() matches Some((next, last)) ==> next <= last && self.blocks.len() > 0
        &&& BACKOFF_START_MS <= self.backoff_ms <= BACKOFF_CAP_MS
        &&& self.place matches Place::Pausing { ms, .. } ==> BACKOFF_START_MS <= ms
            <= BACKOFF_CAP_MS && self.backoff_ms == doubled(ms)
    }
}

/// What happens keeps a driver well-formed.
pub proof fn lemma_next_wf(s: State, h: Happening)
    requires
        s.wf(),
    ensures
        s.next(h).wf(),
{
}

impl Driver {
    #[verifier::type_invariant]
    spec fn well_formed(self) -> bool {
        self@.wf()
    }

    /// A driver for a chain whose ledger ends at a block, if it has any.
    pub fn new(chain_id: u64, high_water: Option<u64>) -> (r: Driver)
        ensures
            r@ == State::start(chain_id, high_water),
            r@.wf(),
    {
        let blocks: Vec<BlockId> = Vec::new();
        assert(blocks@ =~= Seq::<BlockId>::empty());
        Driver {
            chain_id,
            high_water,
            pending: None,
            blocks,
            backoff_ms: BACKOFF_START_MS,
            phase: Phase::Idle,
        }
    }

    /// What to do now.
    pub fn action(&self) -> (r: Action)
        ensures
            r@ == self@.order(),
    {
        match &self.phase {
            Phase::Idle => Action::Await,
            Phase::Deleting { reverted } => Action::DeleteBlocks { hashes: copy_hashes(reverted) },
            Phase::FetchingGap { next, .. } => Action::FetchGapHash { number: *next },
            Phase::MarkingGap { next, hash, .. } => Action::WriteGapMarker {
                block: BlockId { number: *next, hash: *hash },
            },
            Phase::Processing { index } => Action::ProcessBlock { index: *index },
            Phase::Writing { index } => Action::WriteBlock { index: *index },
            Phase::Diagnosing { row, .. } => Action::WriteDiagnostic { row: *row },
            Phase::Pausing { ms, .. } => Action::Sleep { ms: *ms },
            Phase::Reporting { block } => Action::ReportFinished { block: *block },
            Phase::Stopped => Action::Stop,
        }
    }

    fn at(self, phase: Phase) -> (r: Driver)
        requires
            self@.at(phase@).wf(),
        ensures
            r@ == self@.at(phase@),
    {
        Driver {
            chain_id: self.chain_id,
            high_water: self.high_water,
            pending: self.pending,
            blocks: self.blocks,
            backoff_ms: BACKOFF_START_MS,
            phase,
        }
    }

    fn staying(self, phase: Phase) -> (r: Driver)
        requires
            (State { place: phase@, ..self@ }).wf(),
        ensures
            r@ == (State { place: phase@, ..self@ }),
    {
        Driver {
            chain_id: self.chain_id,
            high_water: self.high_water,
            pending: self.pending,
            blocks: self.blocks,
            backoff_ms: self.backoff_ms,
            phase,
        }
    }

    fn pausing(self, resume: Resume) -> (r: Driver)
        requires
            self@.pausing(resume@).wf(),
        ensures
            r@ == self@.pausing(resume@),
    {
        Driver {
            chain_id: self.chain_id,
            high_water: self.high_water,
            pending: self.pending,
            blocks: self.blocks,
            backoff_ms: double(self.backoff_ms),
            phase: Phase::Pausing { ms: self.backoff_ms, resume },
        }
    }

    fn at_committed(self) -> (r: Driver)
        requires
            self@.at_committed().wf(),
        ensures
            r@ == self@.at_committed(),
    {
        if self.blocks.len() == 0 {
            return self.at(Phase::Idle);
        }
        match gap_range(self.high_water, self.blocks[0].number) {
            Some((next, last)) => self.at(Phase::FetchingGap { next, last }),
            None => self.at(Phase::Processing { index: 0 }),
        }
    }

    fn written(self, index: usize) -> (r: Driver)
        requires
            index < self@.blocks.len(),
            self@.written(index as nat).wf(),
        ensures
            r@ == self@.written(index as nat),
    {
        let block = self.blocks[index];
        let count: usize = self.blocks.len();
        let last = index >= count - 1;
        let phase = if !last {
            Phase::Processing { index: index + 1 }
        } else {
            match self.pending {
                Some(block) => Phase::Reporting { block },
                None => Phase::Idle,
            }
        };
        Driver {
            chain_id: self.chain_id,
            high_water: Some(block.number),
            pending: if last {
                Some(block)
            } else {
                self.pending
            },
            blocks: self.blocks,
            backoff_ms: BACKOFF_START_MS,
            phase,
        }
    }

    /// The driver after something happened. What does not belong where it is
    /// changes nothing.
    pub fn step(self, event: Event) -> (r: Driver)
        ensures
            r@ == self@.next(event@),
            r@.wf(),
    {
        proof {
            use_type_invariant(&self);
            lemma_next_wf(self@, event@);
        }
        match event {
            Event::Notification { reverted, committed } => match self.phase {
                Phase::Idle => {
                    let next = Driver {
                        chain_id: self.chain_id,
                        high_water: self.high_water,
                        pending: self.pending,
                        blocks: committed,
                        backoff_ms: self.backoff_ms,
                        phase: Phase::Idle,
                    };
                    if reverted.len() > 0 {
                        next.at(Phase::Deleting { reverted })
                    } else {
                        next.at_committed()
                    }
                },
                _ => self,
            },
            Event::Deleted(ok) => match &self.phase {
                Phase::Deleting { reverted } => if ok {
                    let high_water = lowered_mark(self.high_water, reverted);
                    let pending = match self.pending {
                        Some(b) => if has_hash(b.hash, reverted) {
                            None
                        } else {
                            Some(b)
                        },
                        None => None,
                    };
                    let remaining = Driver {
                        chain_id: self.chain_id,
                        high_water,
                        pending,
                        blocks: self.blocks,
                        backoff_ms: self.backoff_ms,
                        phase: Phase::Idle,
                    };
                    remaining.at_committed()
                } else {
                    let reverted = copy_blocks(reverted);
                    self.pausing(Resume::Deleting { reverted })
                },
                _ => self,
            },
            Event::GapHash(found) => match self.phase {
                Phase::FetchingGap { next, last } => match found {
                    Some(hash) => self.staying(Phase::MarkingGap { next, last, hash }),
                    None => self.pausing(Resume::Gap { next, last }),
                },
                _ => self,
            },
            Event::GapMarked(ok) => match self.phase {
                Phase::MarkingGap { next, last, .. } => if ok {
                    let marked = Driver {
                        chain_id: self.chain_id,
                        high_water: Some(next),
                        pending: self.pending,
                        blocks: self.blocks,
                        backoff_ms: self.backoff_ms,
                        phase: Phase::Idle,
                    };
                    if next < last {
                        marked.at(Phase::FetchingGap { next: next + 1, last })
                    } else {
                        marked.at(Phase::Processing { index: 0 })
                    }
                } else {
                    self.pausing(Resume::Gap { next, last })
                },
                _ => self,
            },
            Event::Processed(p) => match self.phase {
                Phase::Processing { index } => match p {
                    Processed::Batch => self.staying(Phase::Writing { index }),
                    Processed::Residual { block, address, residual } => {
                        let row = diagnostic_row(
                            self.chain_id,
                            block,
                            self.blocks[index].hash,
                            address,
                            residual,
                        );
                        self.staying(Phase::Diagnosing { index, row })
                    },
                    Processed::Failed => self.pausing(Resume::Block { index }),
                },
                _ => self,
            },
            Event::BlockWritten(ok) => match self.phase {
                Phase::Writing { index } => if ok {
                    self.written(index)
                } else {
                    self.pausing(Resume::Block { index })
                },
                _ => self,
            },
            Event::DiagnosticWritten => match self.phase {
                Phase::Diagnosing { index, .. } => self.pausing(Resume::Block { index }),
                _ => self,
            },
            Event::Slept => match &self.phase {
                Phase::Pausing { resume, .. } => {
                    let phase = match resume {
                        Resume::Deleting { reverted } => Phase::Deleting {
                            reverted: copy_blocks(reverted),
                        },
                        Resume::Gap { next, last } => Phase::FetchingGap {
                            next: *next,
                            last: *last,
                        },
                        Resume::Block { index } => Phase::Processing { index: *index },
                    };
                    self.staying(phase)
                },
                _ => self,
            },
            Event::Reported(ok) => match self.phase {
                Phase::Reporting { .. } => if ok {
                    self.at(Phase::Idle)
                } else {
                    self.at(Phase::Stopped)
                },
                _ => self,
            },
        }
    }
}

impl State {
    /// The state after a run of happenings.
    pub open spec fn run(self, hs: Seq<Happening>) -> State
        decreases hs.len(),
    {
        if hs.len() == 0 {
            self
        } else {
            self.run(hs.drop_last()).next(hs.last())
        }
    }

    /// The block that is in the ledger once this has happened, if that puts one
    /// there.
    pub open spec fn stores(self, h: Happening) -> Option<BlockId> {
        match (self.place, h) {
            (Place::Writing { index }, Happening::BlockWritten(true)) => Some(
                self.blocks[index as int],
            ),
            (Place::MarkingGap { next, hash, .. }, Happening::GapMarked(true)) => Some(
                BlockId { number: next, hash },
            ),
            _ => None,
        }
    }

    /// The blocks that are no longer in the ledger once this has happened.
    pub open spec fn deletes(self, h: Happening) -> Seq<BlockId> {
        match (self.place, h) {
            (Place::Deleting { reverted }, Happening::Deleted(true)) => reverted,
            _ => Seq::empty(),
        }
    }

    /// What a ledger with these blocks holds once this has happened.
    pub open spec fn ledger_after(self, stored: Set<BlockId>, h: Happening) -> Set<BlockId> {
        let kept = stored.filter(|b: BlockId| !is_among(b.hash, self.deletes(h)));
        match self.stores(h) {
            Some(b) => kept.insert(b),
            None => kept,
        }
    }

    /// The blocks that a run of happenings puts into the ledger and leaves there.
    pub open spec fn stored(self, hs: Seq<Happening>) -> Set<BlockId>
        decreases hs.len(),
    {
        if hs.len() == 0 {
            Set::empty()
        } else {
            self.run(hs.drop_last()).ledger_after(self.stored(hs.drop_last()), hs.last())
        }
    }

    /// What waits to be reported, or is being reported, is stored, and so are the
    /// committed blocks before the one in hand.
    spec fn backed_by(self, stored: Set<BlockId>) -> bool {
        &&& self.pending matches Some(b) ==> stored.contains(b)
        &&& self.place matches Place::Reporting { block } ==> stored.contains(block)
        &&& self.index() matches Some(i) ==> forall|j: int|
            0 <= j < i ==> stored.contains(#[trigger] self.blocks[j])
    }
}

proof fn lemma_run(chain_id: u64, high_water: Option<u64>, hs: Seq<Happening>)
    ensures
        ({
            let start = State::start(chain_id, high_water);
            start.run(hs).wf() && start.run(hs).backed_by(start.stored(hs))
        }),
    decreases hs.len(),
{
    let start = State::start(chain_id, high_water);
    if hs.len() > 0 {
        lemma_run(chain_id, high_water, hs.drop_last());
        let s = start.run(hs.drop_last());
        let h = hs.last();
        lemma_next_wf(s, h);
        let t = s.next(h);
        let before = start.stored(hs.drop_last());
        let after = start.stored(hs);
        if s.deletes(h).len() == 0 {
            assert(forall|b: BlockId| before.contains(b) ==> after.contains(b));
        }
        if t.index() is Some {
            let i = t.index()->0;
            assert forall|j: int| 0 <= j < i implies after.contains(#[trigger] t.blocks[j]) by {
                if s.index() is Some {
                    assert(t.blocks == s.blocks);
                    if j < s.index()->0 {
                        assert(before.contains(s.blocks[j]));
                    }
                }
            }
        }
    }
}

/// A height is reported as finished only if its block was stored before, and has
/// not been reverted since.
pub proof fn reported_heights_are_stored(
    chain_id: u64,
    high_water: Option<u64>,
    hs: Seq<Happening>,
    block: BlockId,
)
    requires
        State::start(chain_id, high_water).run(hs).order() == (Order::ReportFinished { block }),
    ensures
        State::start(chain_id, high_water).stored(hs).contains(block),
{
    lemma_run(chain_id, high_water, hs);
}

/// A tip becomes the next height to report only when every committed block of its
/// notification is stored.
pub proof fn a_tip_waits_for_every_block(
    chain_id: u64,
    high_water: Option<u64>,
    hs: Seq<Happening>,
    h: Happening,
)
    requires
        ({
            let s = State::start(chain_id, high_water).run(hs);
            s.next(h).pending is Some && s.next(h).pending != s.pending
        }),
    ensures
        ({
            let start = State::start(chain_id, high_water);
            let s = start.run(hs);
            &&& s.blocks.len() > 0
            &&& s.next(h).pending == Some(s.blocks.last())
            &&& forall|j: int|
                0 <= j < s.blocks.len() ==> start.stored(hs.push(h)).contains(
                    #[trigger] s.blocks[j],
                )
        }),
{
    lemma_run(chain_id, high_water, hs);
    let start = State::start(chain_id, high_water);
    let s = start.run(hs);
    assert(hs.push(h).drop_last() =~= hs);
    assert(hs.push(h).last() == h);
    let i = s.index()->0;
    assert(s.place == (Place::Writing { index: i }));
    assert(s.blocks[i as int] == s.blocks.last());
    assert forall|j: int| 0 <= j < s.blocks.len() implies start.stored(hs.push(h)).contains(
        #[trigger] s.blocks[j],
    ) by {
        if j < i {
            assert(start.stored(hs).contains(s.blocks[j]));
        }
    }
}

/// The driver leaves a committed block only when that block is stored: whatever
/// else happens, it stays on the block.
pub proof fn a_stalled_block_is_never_passed(s: State, h: Happening)
    requires
        s.wf(),
        s.index() is Some,
        s.stores(h) is None,
    ensures
        s.next(h).index() == s.index(),
        s.next(h).blocks == s.blocks,
        s.next(h).high_water == s.high_water,
        s.next(h).pending == s.pending,
{
}

/// The driver leaves an undelivered block only when that block is marked: no
/// committed block is touched, and nothing is reported, while it has no marker.
pub proof fn a_gap_is_never_passed(s: State, h: Happening)
    requires
        s.wf(),
        s.gap_in_hand() is Some,
        s.stores(h) is None,
    ensures
        s.next(h).gap_in_hand() == s.gap_in_hand(),
        s.next(h).index() is None,
        s.next(h).high_water == s.high_water,
        s.next(h).pending == s.pending,
        s.next(h).place !is Reporting,
{
}

/// A reverted block is never reported: once it is deleted, it no longer waits.
pub proof fn a_reverted_tip_is_not_reported(s: State, h: Happening, b: BlockId)
    requires
        is_among(b.hash, s.deletes(h)),
    ensures
        s.next(h).pending != Some(b),
        s.next(h).order() != (Order::ReportFinished { block: b }),
{
}

/// The end of the ledger changes exactly when a block is stored, and is that
/// block, or when blocks are deleted, and is then before all of them.
pub proof fn the_high_water_follows_the_ledger(s: State, h: Happening)
    ensures
        s.next(h).high_water == match s.stores(h) {
            Some(b) => Some(b.number),
            None => lowered(s.high_water, s.deletes(h)),
        },
        s.next(h).high_water matches Some(n) ==> forall|k: int|
            0 <= k < s.deletes(h).len() ==> n < (#[trigger] s.deletes(h)[k]).number,
{
    lemma_lowered(s.high_water, s.deletes(h));
}

/// The end of a chain that lost blocks is not after its old end, and before each
/// of them.
proof fn lemma_lowered(high_water: Option<u64>, blocks: Seq<BlockId>)
    ensures
        lowered(high_water, blocks) matches Some(n) ==> high_water matches Some(h) && n <= h
            && forall|k: int| 0 <= k < blocks.len() ==> n < (#[trigger] blocks[k]).number,
        high_water is Some && (forall|k: int|
            0 <= k < blocks.len() ==> (#[trigger] blocks[k]).number > 0) ==> lowered(
            high_water,
            blocks,
        ) is Some,
    decreases blocks.len(),
{
    if blocks.len() > 0 {
        let rest = blocks.drop_last();
        lemma_lowered(high_water, rest);
        assert(forall|k: int| 0 <= k < rest.len() ==> rest[k] == #[trigger] blocks[k]);
    }
}

/// After a restart, bookkeeping resumes at the last block that was written.
pub proof fn a_restart_resumes_at_the_last_block(
    store: Store,
    b: Batch,
    number: String,
    hash: String,
    head: Option<BlockId>,
)
    requires
        number@ == store.after_all(b.ops()).meta[MetaKey::LastBlock],
        hash@ == store.after_all(b.ops()).meta[MetaKey::LastBlockHash],
        stored_head(Some(number), Some(hash), head),
    ensures
        head == Some(BlockId { number: b.block_number, hash: b.block_hash }),
{
    ledger_laws::writing_a_block_advances(store, b);
    text::lemma_decimal_reads_back(b.block_number);
    b.block_hash.lemma_text_reads_back();
    head->0.hash.lemma_injective(b.block_hash);
}

/// Undelivered blocks are marked one after the other, without a hole: the block
/// in hand is the one after the last stored one, up to the one before the first
/// committed block.
pub open spec fn gap_is_closing(s: State) -> bool {
    s.gap_in_hand() matches Some((next, last)) ==> s.high_water == Some((next - 1) as u64) && next
        > 0 && s.blocks[0].number == last + 1
}

/// [`gap_is_closing`] always holds.
pub proof fn gaps_are_closed_in_order(
    chain_id: u64,
    high_water: Option<u64>,
    hs: Seq<Happening>,
)
    ensures
        gap_is_closing(State::start(chain_id, high_water).run(hs)),
    decreases hs.len(),
{
    if hs.len() > 0 {
        gaps_are_closed_in_order(chain_id, high_water, hs.drop_last());
        lemma_run(chain_id, high_water, hs.drop_last());
    }
}

/// Each of these blocks has the number that belongs to its hash.
pub open spec fn numbered(blocks: Seq<BlockId>, number_of: spec_fn(B256) -> u64) -> bool {
    forall|k: int|
        0 <= k < blocks.len() ==> (#[trigger] blocks[k]).number == number_of(blocks[k].hash)
}

/// Each block is the one after the block before it.
pub open spec fn consecutive(blocks: Seq<BlockId>) -> bool {
    forall|k: int|
        0 <= k < blocks.len() ==> (#[trigger] blocks[k]).number == blocks[0].number + k
}

/// Whether a ledger holds a block of a number.
pub open spec fn holds(stored: Set<BlockId>, number: u64) -> bool {
    exists|b: BlockId| #[trigger] stored.contains(b) && b.number == number
}

impl State {
    /// What the node says is so: a hash belongs to one number, committed blocks
    /// follow one another, and the first block of all is not reverted.
    pub open spec fn is_told_truly(self, h: Happening, number_of: spec_fn(B256) -> u64) -> bool {
        match h {
            Happening::Notification { reverted, committed } => {
                &&& numbered(reverted, number_of)
                &&& numbered(committed, number_of)
                &&& consecutive(committed)
                &&& forall|k: int| 0 <= k < reverted.len() ==> (#[trigger] reverted[k]).number > 0
            },
            Happening::GapHash(Some(hash)) => self.gap_in_hand() matches Some((next, _))
                ==> number_of(hash) == next,
            _ => true,
        }
    }

    /// All that happened in a run [is told truly](State::is_told_truly).
    pub open spec fn is_true_run(self, hs: Seq<Happening>, number_of: spec_fn(B256) -> u64) -> bool
        decreases hs.len(),
    {
        hs.len() == 0 || (self.is_true_run(hs.drop_last(), number_of) && self.run(
            hs.drop_last(),
        ).is_told_truly(hs.last(), number_of))
    }

    /// The number from which on the ledger has to hold every block, where one did,
    /// once this has happened.
    pub open spec fn begins_after(self, begin: Option<int>, h: Happening) -> Option<int> {
        match begin {
            Some(n) => match self.next(h).high_water {
                Some(end) => if self.deletes(h).len() > 0 && end < n {
                    Some(end + 1)
                } else {
                    Some(n)
                },
                None => Some(n),
            },
            None => match self.stores(h) {
                Some(b) => Some(b.number as int),
                None => None,
            },
        }
    }

    /// The number from which on the ledger has to hold every block: that of the
    /// first block after the end of the ledger that the driver began with, or of the
    /// first block of a new ledger. A revert that goes back further moves it there.
    pub open spec fn begins(self, hs: Seq<Happening>) -> Option<int>
        decreases hs.len(),
    {
        if hs.len() == 0 {
            match self.high_water {
                Some(h) => Some(h + 1),
                None => None,
            }
        } else {
            self.run(hs.drop_last()).begins_after(self.begins(hs.drop_last()), hs.last())
        }
    }

    /// The reverted blocks in hand.
    spec fn reverted_in_hand(self) -> Seq<BlockId> {
        match self.place {
            Place::Deleting { reverted } => reverted,
            Place::Pausing { back: Back::Deleting { reverted }, .. } => reverted,
            _ => Seq::empty(),
        }
    }

    /// The ledger ends where the driver takes it to end and has no hole before.
    spec fn is_sound(
        self,
        stored: Set<BlockId>,
        begin: Option<int>,
        number_of: spec_fn(B256) -> u64,
    ) -> bool {
        &&& numbered(self.blocks, number_of)
        &&& consecutive(self.blocks)
        &&& numbered(self.reverted_in_hand(), number_of)
        &&& forall|k: int|
            0 <= k < self.reverted_in_hand().len() ==> (
            #[trigger] self.reverted_in_hand()[k]).number > 0
        &&& self.place matches Place::MarkingGap { next, hash, .. } ==> number_of(hash) == next
        &&& forall|b: BlockId| #[trigger] stored.contains(b) ==> b.number == number_of(b.hash)
        &&& begin is Some ==> self.high_water is Some
        &&& self.high_water is Some ==> begin is Some
        &&& forall|n: u64|
            begin is Some && begin->0 <= n <= self.high_water->0 ==> #[trigger] holds(stored, n)
        &&& self.index() matches Some(i) ==> if i == 0 {
            self.high_water is Some ==> self.blocks[0].number <= self.high_water->0 + 1
        } else {
            self.high_water == Some(self.blocks[i - 1].number)
        }
        &&& gap_is_closing(self)
    }
}

proof fn lemma_sound_step(
    s: State,
    h: Happening,
    stored: Set<BlockId>,
    begin: Option<int>,
    number_of: spec_fn(B256) -> u64,
)
    requires
        s.wf(),
        s.is_sound(stored, begin, number_of),
        s.is_told_truly(h, number_of),
    ensures
        s.next(h).is_sound(s.ledger_after(stored, h), s.begins_after(begin, h), number_of),
{
    let t = s.next(h);
    let after = s.ledger_after(stored, h);
    let begins = s.begins_after(begin, h);
    lemma_lowered(s.high_water, s.deletes(h));
    assert forall|n: u64|
        begins is Some && begins->0 <= n <= t.high_water->0 implies #[trigger] holds(after, n) by {
        if s.stores(h) is Some && s.stores(h)->0.number == n {
            assert(after.contains(s.stores(h)->0));
        } else {
            assert(holds(stored, n));
            let b = choose|b: BlockId| #[trigger] stored.contains(b) && b.number == n;
            assert(!is_among(b.hash, s.deletes(h)));
            assert(after.contains(b));
        }
    }
}

proof fn lemma_sound(
    chain_id: u64,
    high_water: Option<u64>,
    hs: Seq<Happening>,
    number_of: spec_fn(B256) -> u64,
)
    requires
        State::start(chain_id, high_water).is_true_run(hs, number_of),
    ensures
        ({
            let start = State::start(chain_id, high_water);
            start.run(hs).is_sound(start.stored(hs), start.begins(hs), number_of)
        }),
    decreases hs.len(),
{
    if hs.len() > 0 {
        let start = State::start(chain_id, high_water);
        let before = hs.drop_last();
        lemma_sound(chain_id, high_water, before, number_of);
        lemma_run(chain_id, high_water, before);
        lemma_sound_step(
            start.run(before),
            hs.last(),
            start.stored(before),
            start.begins(before),
            number_of,
        );
    }
}

/// The ledger has no hole: from where it [begins](State::begins) to its end it
/// holds every block, whatever was committed, missed or reverted.
pub proof fn the_ledger_has_no_hole(
    chain_id: u64,
    high_water: Option<u64>,
    hs: Seq<Happening>,
    number_of: spec_fn(B256) -> u64,
)
    requires
        State::start(chain_id, high_water).is_true_run(hs, number_of),
    ensures
        ({
            let start = State::start(chain_id, high_water);
            forall|n: u64|
                start.begins(hs) matches Some(begin) && start.run(hs).high_water matches Some(end)
                    && begin <= n <= end ==> #[trigger] holds(start.stored(hs), n)
        }),
{
    lemma_sound(chain_id, high_water, hs, number_of);
}

/// A committed block is processed only when the ledger holds every block before
/// it, from where the ledger [begins](State::begins).
pub proof fn no_block_is_processed_across_a_gap(
    chain_id: u64,
    high_water: Option<u64>,
    hs: Seq<Happening>,
    number_of: spec_fn(B256) -> u64,
)
    requires
        State::start(chain_id, high_water).is_true_run(hs, number_of),
    ensures
        ({
            let start = State::start(chain_id, high_water);
            let s = start.run(hs);
            forall|n: u64|
                s.index() matches Some(i) && start.begins(hs) matches Some(begin) && begin <= n
                    < s.blocks[i as int].number ==> #[trigger] holds(start.stored(hs), n)
        }),
{
    lemma_sound(chain_id, high_water, hs, number_of);
    lemma_run(chain_id, high_water, hs);
}

/// Reverted blocks are deleted before anything else is done about a notification.
pub proof fn reverted_blocks_are_deleted_first(
    s: State,
    reverted: Seq<BlockId>,
    committed: Seq<BlockId>,
)
    requires
        s.place == Place::Idle,
        reverted.len() > 0,
    ensures
        s.next(Happening::Notification { reverted, committed }).order() == (Order::DeleteBlocks {
            hashes: hashes_of(reverted),
        }),
{
}

/// The driver leaves a deletion only when it is done, however often that has to
/// be tried.
pub proof fn a_deletion_is_never_passed(s: State, reverted: Seq<BlockId>, h: Happening)
    requires
        h != Happening::Deleted(true),
    ensures
        s.place == (Place::Deleting { reverted }) ==> s.next(h).place == s.place || s.next(h).place
            == (Place::Pausing { ms: s.backoff_ms, back: Back::Deleting { reverted } }),
        s.place matches Place::Pausing { ms, back } && back == (Back::Deleting { reverted })
            ==> s.next(h).place == s.place || s.next(h).place == (Place::Deleting { reverted }),
{
}

/// A residual that stops a block is that of a watched change.
proof fn lemma_residual(i: Inputs, k: nat, number: u64, address: Address, residual: int) -> (j: int)
    requires
        i.first_unreconciled(k) == Some(
            Failure::UnexplainedResidual { block: number, address, residual },
        ),
    ensures
        number == i.block_number,
        k <= j < i.deltas.len(),
        i.deltas[j].0 == address,
        i.watched.contains(address),
        i.account(address, i.deltas[j].1).in_range(),
        residual == i.deltas[j].1 - i.account(address, i.deltas[j].1).attributed(),
    decreases i.deltas.len() - k,
{
    let (a, observed) = i.deltas[k as int];
    let account = i.account(a, observed);
    if !i.watched.contains(a) || (account.in_range() && account.balances()) {
        lemma_residual(i, k + 1, number, address, residual)
    } else {
        k as int
    }
}

/// The row that records why a block stalls is for the address, and of the residual,
/// that reconciliation found.
pub proof fn a_stall_is_recorded_with_its_residual(
    i: Inputs,
    number: u64,
    address: Address,
    residual: int,
)
    requires
        i.outcome() == Err::<Batch, Failure>(
            Failure::UnexplainedResidual { block: number, address, residual },
        ),
    ensures
        ({
            let row = diagnostic(i.chain_id, number, i.block_hash, address, residual as i128);
            &&& processed_as(i.outcome()) == (Processed::Residual {
                block: number,
                address,
                residual: residual as i128,
            })
            &&& exists|j: int|
                {
                    let (a, observed) = #[trigger] i.deltas[j];
                    let found = i.account(a, observed).residual_row();
                    &&& 0 <= j < i.deltas.len()
                    &&& a == address
                    &&& row.chain_id == found.chain_id && row.block_number == found.block_number
                    &&& row.block_hash == found.block_hash && row.address == found.address
                    &&& row.residual_wei == found.residual_wei && row.cause == found.cause
                }
        }),
{
    let j = lemma_residual(i, 0, number, address, residual);
    assert(i.deltas[j].0 == address);
}

/// Every pause is at least the first and at most the longest, and each pause is
/// twice the one before until it is the longest.
pub proof fn pauses_are_bounded(
    chain_id: u64,
    high_water: Option<u64>,
    hs: Seq<Happening>,
)
    ensures
        ({
            let s = State::start(chain_id, high_water).run(hs);
            &&& s.order() matches Order::Sleep { ms } ==> BACKOFF_START_MS <= ms <= BACKOFF_CAP_MS
            &&& s.order() matches Order::Sleep { ms } ==> s.backoff_ms == doubled(ms)
        }),
{
    lemma_run(chain_id, high_water, hs);
}

/// What is ordered is what takes effect: a block gets into the ledger only by the
/// order to write it, or to mark it, and out of it only by the order to delete it.
pub proof fn what_is_ordered_takes_effect(s: State, h: Happening)
    ensures
        s.stores(h) matches Some(b) ==> (s.order() == (Order::WriteGapMarker { block: b }) && h
            == Happening::GapMarked(true)) || (exists|index: nat|
            s.order() == (#[trigger] order_to_write(index)) && s.blocks[index as int] == b && h
                == Happening::BlockWritten(true)),
        s.deletes(h).len() > 0 ==> s.order() == (Order::DeleteBlocks {
            hashes: Seq::new(s.deletes(h).len(), |k: int| s.deletes(h)[k].hash),
        }) && h == Happening::Deleted(true),
        forall|index: nat|
            s.order() == (#[trigger] order_to_write(index)) && h == Happening::BlockWritten(true)
                ==> s.stores(h) == Some(s.blocks[index as int]),
        forall|b: BlockId|
            s.order() == (#[trigger] order_to_mark(b)) && h == Happening::GapMarked(true)
                ==> s.stores(h) == Some(b),
{
    if let Place::Writing { index } = s.place {
        assert(s.order() == order_to_write(index));
    }
    if let Place::MarkingGap { next, hash, .. } = s.place {
        assert(s.order() == order_to_mark(BlockId { number: next, hash }));
    }
    assert(hashes_of(s.deletes(h)) =~= Seq::new(
        s.deletes(h).len(),
        |k: int| s.deletes(h)[k].hash,
    ));
}

/// The order to write the committed block at a place.
pub open spec fn order_to_write(index: nat) -> Order {
    Order::WriteBlock { index }
}

/// The order to mark a block.
pub open spec fn order_to_mark(block: BlockId) -> Order {
    Order::WriteGapMarker { block }
}

/// Success leads on. A processed block is written. After a written block the next one
/// of the notification is processed; after the last one the tip that waited is
/// reported, if there is one, and the new tip waits. After a marked block the next one
/// of the gap is looked up, up to the one before the first committed block, which is
/// then processed.
pub proof fn success_leads_on(s: State, index: nat, number: u64, block: BlockId, hash: B256)
    requires
        s.wf(),
        gap_is_closing(s),
    ensures
        s.order() == (Order::ProcessBlock { index }) ==> s.next(
            Happening::Processed(Processed::Batch),
        ).order() == (Order::WriteBlock { index }),
        s.order() == (Order::WriteBlock { index }) && index + 1 < s.blocks.len() ==> s.next(
            Happening::BlockWritten(true),
        ).order() == (Order::ProcessBlock { index: index + 1 }),
        s.order() == (Order::WriteBlock { index }) && index + 1 == s.blocks.len() ==> {
            let t = s.next(Happening::BlockWritten(true));
            &&& t.pending == Some(s.blocks.last())
            &&& s.pending is None ==> t.order() == Order::Await
            &&& s.pending is Some ==> t.order() == (Order::ReportFinished { block: s.pending->0 })
        },
        s.order() == (Order::FetchGapHash { number }) ==> s.next(
            Happening::GapHash(Some(hash)),
        ).order() == (Order::WriteGapMarker { block: BlockId { number, hash } }),
        s.order() == (Order::WriteGapMarker { block }) ==> s.next(
            Happening::GapMarked(true),
        ).order() == if block.number + 1 < s.blocks[0].number {
            Order::FetchGapHash { number: (block.number + 1) as u64 }
        } else {
            Order::ProcessBlock { index: 0 }
        },
        s.order() == (Order::ReportFinished { block }) ==> s.next(
            Happening::Reported(true),
        ).order() == Order::Await && s.next(Happening::Reported(false)).order() == Order::Stop,
{
}

/// A notification is taken up where nothing is in hand: without reverted blocks the
/// committed ones are processed from the first, unless blocks before it are missing,
/// which are then looked up from the first missing one; without committed blocks
/// there is nothing to do.
pub proof fn a_notification_is_taken_up(s: State, committed: Seq<BlockId>)
    requires
        s.order() == Order::Await,
    ensures
        ({
            let t = s.next(Happening::Notification { reverted: Seq::empty(), committed });
            let missing = s.high_water is Some && s.high_water->0 + 1 < committed[0].number;
            &&& t.blocks == committed
            &&& t.high_water == s.high_water && t.pending == s.pending
            &&& committed.len() == 0 ==> t.order() == Order::Await
            &&& committed.len() > 0 && missing ==> t.order() == (Order::FetchGapHash {
                number: (s.high_water->0 + 1) as u64,
            })
            &&& committed.len() > 0 && !missing ==> t.order() == (Order::ProcessBlock { index: 0 })
        }),
{
}

/// What fails is tried again: the driver pauses, and then orders the same anew; a
/// block whose writing failed is processed anew.
pub proof fn failures_are_retried(s: State, index: nat, number: u64, block: BlockId)
    requires
        s.wf(),
    ensures
        s.order() == (Order::ProcessBlock { index }) ==> {
            let t = s.next(Happening::Processed(Processed::Failed));
            t.order() == (Order::Sleep { ms: s.backoff_ms }) && t.next(Happening::Slept).order()
                == s.order()
        },
        s.order() == (Order::WriteBlock { index }) ==> {
            let t = s.next(Happening::BlockWritten(false));
            t.order() == (Order::Sleep { ms: s.backoff_ms }) && t.next(Happening::Slept).order()
                == (Order::ProcessBlock { index })
        },
        s.order() is WriteDiagnostic ==> {
            let t = s.next(Happening::DiagnosticWritten);
            &&& t.order() == (Order::Sleep { ms: s.backoff_ms })
            &&& s.index() is Some
            &&& t.next(Happening::Slept).order() == (Order::ProcessBlock { index: s.index()->0 })
        },
        s.order() is DeleteBlocks ==> {
            let t = s.next(Happening::Deleted(false));
            t.order() == (Order::Sleep { ms: s.backoff_ms }) && t.next(Happening::Slept).order()
                == s.order()
        },
        s.order() == (Order::FetchGapHash { number }) ==> {
            let t = s.next(Happening::GapHash(None));
            t.order() == (Order::Sleep { ms: s.backoff_ms }) && t.next(Happening::Slept).order()
                == s.order()
        },
        s.order() == (Order::WriteGapMarker { block }) ==> {
            let t = s.next(Happening::GapMarked(false));
            t.order() == (Order::Sleep { ms: s.backoff_ms }) && t.next(Happening::Slept).order()
                == (Order::FetchGapHash { number: block.number })
        },
{
}

/// The first pause of a block is the shortest, and after each pause the next is twice
/// as long, up to the longest: whatever leads on starts short again.
pub proof fn pauses_double_and_start_short_again(s: State, h: Happening)
    requires
        s.wf(),
    ensures
        s.next(h).order() is Sleep && !(s.order() is Sleep) ==> s.next(h).order() == (Order::Sleep {
            ms: s.backoff_ms,
        }) && s.next(h).backoff_ms == if 2 * s.backoff_ms < 30000 {
            (2 * s.backoff_ms) as u64
        } else {
            30000
        },
        s.stores(h) is Some || s.deletes(h).len() > 0 ==> s.next(h).backoff_ms == 200,
        State::start(s.chain_id, s.high_water).backoff_ms == 200,
{
}

/// A residual is recorded for the block in hand, with the number and the address that
/// it was found for; nothing of it is attributed.
pub proof fn a_residual_is_recorded_for_the_block_in_hand(
    s: State,
    index: nat,
    block: u64,
    address: Address,
    residual: i128,
)
    requires
        s.order() == (Order::ProcessBlock { index }),
    ensures
        s.next(Happening::Processed(Processed::Residual { block, address, residual })).order() matches Order::WriteDiagnostic {
            row,
        } && row.chain_id == s.chain_id && row.block_number == block && row.block_hash
            == s.blocks[index as int].hash && row.address == address && row.attributed_wei@ == 0
            && row.residual_wei@ == (if residual >= 0 {
            residual as int
        } else {
            -residual
        }) && row.observed_wei == row.residual_wei && row.cause
            == UnattributedDeltaCause::UnexplainedResidual,
{
    U256::lemma_number_of(0);
    U256::lemma_number_of(reconcile::abs(residual as int));
}

/// The head that is resumed from is the block whose number and hash are stored; where
/// either is missing or unreadable there is none.
pub proof fn the_head_is_what_is_stored(number: String, hash: String, block: BlockId)
    requires
        number@ == text::decimal(block.number as nat),
        hash@ == primitives::b256_text(block.hash),
    ensures
        stored_head(Some(number), Some(hash), Some(block)),
        !stored_head(Some(number), Some(hash), None),
        stored_head(None, Some(hash), None),
        stored_head(Some(number), None, None),
{
    text::lemma_decimal_reads_back(block.number);
    block.hash.lemma_text_reads_back();
}

} // verus!
