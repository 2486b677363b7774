use vstd::prelude::*;
use vstd::slice::slice_to_vec;
use crate::simple_block::{
    block_bytes, candidate, record_views, transaction_bytes, BlockView, RecordView, SimpleBlock, SimpleRecord,
    SimpleTransaction, TransactionView, MINING_PAYOUT,
};
use crate::utilities::sha3_256_of;
use crate::error::ChainError;
use crate::miner::{meets_target, mine_block};

verus! {

/// The payload of a payout to `owner`.
pub open spec fn payout_data(owner: Seq<char>) -> Seq<u8> {
    transaction_bytes(TransactionView { from: None, to: owner, amount: MINING_PAYOUT })
}

/// The record of a payout to `owner`.
pub open spec fn payout_record(owner: Seq<char>) -> RecordView {
    RecordView { id: sha3_256_of(payout_data(owner)), data: payout_data(owner) }
}

/// `b` is `start` with the first nonce from `start`'s own that meets
/// `difficulty`.
pub open spec fn sealed_from(start: BlockView, b: BlockView, difficulty: u8) -> bool {
    &&& b == start.with_nonce(b.nonce)
    &&& start.nonce <= b.nonce
    &&& meets_target(b.id, difficulty)
    &&& forall|n: u64| start.nonce <= n < b.nonce ==> !meets_target(#[trigger] start.with_nonce(n).id, difficulty)
}

/// No nonce from `start`'s own upward meets `difficulty`.
pub open spec fn unsealable(start: BlockView, difficulty: u8) -> bool {
    forall|n: u64| start.nonce <= n ==> !meets_target(#[trigger] start.with_nonce(n).id, difficulty)
}

/// The writes that append `block` to a store, in order: the encoded block
/// under its identifier, then that identifier under `tip_key`. A store
/// applies them together or not at all.
pub fn append_writes(block: &SimpleBlock, tip_key: &[u8]) -> (r: Vec<(Vec<u8>, Vec<u8>)>)
    ensures
        r@.len() == 2,
        r@[0].0@ == block@.id,
        r@[0].1@ == block_bytes(block@),
        r@[1].0@ == tip_key@,
        r@[1].1@ == block@.id,
{
    let id = block.get_hash().clone();
    let mut r: Vec<(Vec<u8>, Vec<u8>)> = Vec::new();
    r.push((id.clone(), block.serialize()));
    r.push((slice_to_vec(tip_key), id));
    r
}

/// The state of a node: the owner who receives payouts, and the records
/// waiting to be mined.
pub struct NodeView {
    pub owner: Seq<char>,
    pub queue: Seq<RecordView>,
}

/// A mining node. It gathers records in a queue and turns batches of them
/// into sealed blocks that extend a chain.
pub struct SimpleNode {
    owner: String,
    queue: Vec<SimpleRecord>,
}

impl View for SimpleNode {
    type V = NodeView;

    closed spec fn view(&self) -> NodeView {
        NodeView { owner: self.owner@, queue: record_views(self.queue@) }
    }
}

impl SimpleNode {
    /// A node for `owner` with an empty queue.
    pub fn new(owner: String) -> (r: Self)
        ensures
            r@.owner == owner@,
            r@.queue == Seq::<RecordView>::empty(),
    {
        let r = Self { owner, queue: Vec::new() };
        proof {
            assert(record_views(r.queue@) =~= Seq::<RecordView>::empty());
        }
        r
    }

    pub fn get_owner(&self) -> (r: &String)
        ensures
            r@ == self@.owner,
    {
        &self.owner
    }

    /// The number of records waiting.
    pub fn queue_len(&self) -> (r: usize)
        ensures
            r == self@.queue.len(),
    {
        self.queue.len()
    }

    /// Adds a record at the tail of the queue.
    pub fn queue_record(&mut self, record: SimpleRecord)
        ensures
            final(self)@ == (NodeView { queue: old(self)@.queue.push(record@), ..old(self)@ }),
    {
        self.queue.push(record);
        proof {
            assert(record_views(self.queue@) =~= record_views(old(self).queue@).push(record@));
        }
    }

    /// A new record paying `MINING_PAYOUT` to the owner.
    fn payout(&self) -> (r: SimpleRecord)
        ensures
            r@ == payout_record(self@.owner),
    {
        let txn = SimpleTransaction::new_mining(self.owner.clone());
        SimpleRecord::new(txn.serialize())
    }

    /// The genesis block of a chain owned by this node, sealed at
    /// `difficulty`: a single payout record to the owner, no predecessor,
    /// height 0.
    pub fn genesis_block(&self, difficulty: u8) -> (r: Result<SimpleBlock, ChainError>)
        ensures
            match r {
                Ok(b) => sealed_from(candidate(None, 0, seq![payout_record(self@.owner)]), b@, difficulty),
                Err(e) => e == ChainError::NonceExhausted && unsealable(
                    candidate(None, 0, seq![payout_record(self@.owner)]),
                    difficulty,
                ),
            },
    {
        let mut block = SimpleBlock::new_genesis(self.payout());
        if mine_block(&mut block, difficulty, u64::MAX) {
            Ok(block)
        } else {
            Err(ChainError::NonceExhausted)
        }
    }

    /// Takes the most recently queued `batch_size` records off the tail of
    /// the queue and adds a payout to the owner after them.
    fn take_batch(&mut self, batch_size: usize) -> (r: Vec<SimpleRecord>)
        requires
            batch_size <= old(self)@.queue.len(),
        ensures
            final(self)@.owner == old(self)@.owner,
            final(self)@.queue == old(self)@.queue.subrange(0, old(self)@.queue.len() - batch_size),
            record_views(r@) == old(self)@.queue.subrange(
                old(self)@.queue.len() - batch_size,
                old(self)@.queue.len() as int,
            ).push(payout_record(old(self)@.owner)),
    {
        let at = self.queue.len() - batch_size;
        let mut recs = self.queue.split_off(at);
        let p = self.payout();
        recs.push(p);
        proof {
            assert(record_views(self.queue@) =~= record_views(old(self).queue@).subrange(0, at as int));
            assert(record_views(recs@) =~= record_views(old(self).queue@).subrange(
                at as int,
                old(self).queue@.len() as int,
            ).push(p@));
        }
        recs
    }

    /// One step of mining on top of `parent`. While at least `batch_size`
    /// records wait, the latest `batch_size` of them and a payout to the
    /// owner become a block after `parent`, one higher, sealed at
    /// `difficulty`. With fewer waiting nothing changes and there is no
    /// block. A zero batch size, or a parent at the greatest height, is a
    /// configuration error that changes nothing.
    pub fn mining_step(&mut self, parent: &SimpleBlock, batch_size: usize, difficulty: u8) -> (r: Result<
        Option<SimpleBlock>,
        ChainError,
    >)
        ensures
            final(self)@.owner == old(self)@.owner,
            batch_size == 0 || parent@.height == u32::MAX ==> r == Err::<Option<SimpleBlock>, ChainError>(
                ChainError::Configuration,
            ) && final(self)@ == old(self)@,
            batch_size > 0 && parent@.height < u32::MAX && old(self)@.queue.len() < batch_size ==> r
                is Ok && r->Ok_0 is None && final(self)@ == old(self)@,
            batch_size > 0 && parent@.height < u32::MAX && old(self)@.queue.len() >= batch_size ==> {
                let n = old(self)@.queue.len();
                let start = candidate(
                    Some(parent@.id),
                    (parent@.height + 1) as u32,
                    old(self)@.queue.subrange(n - batch_size, n as int).push(payout_record(old(self)@.owner)),
                );
                &&& final(self)@.queue == old(self)@.queue.subrange(0, n - batch_size)
                &&& match r {
                    Ok(Some(b)) => sealed_from(start, b@, difficulty),
                    Ok(None) => false,
                    Err(e) => e == ChainError::NonceExhausted && unsealable(start, difficulty),
                }
            },
    {
        if batch_size == 0 || *parent.get_height() == u32::MAX {
            return Err(ChainError::Configuration);
        }
        if self.queue.len() < batch_size {
            return Ok(None);
        }
        let recs = self.take_batch(batch_size);
        let mut block = SimpleBlock::new(parent.get_hash().clone(), *parent.get_height() + 1, recs);
        if mine_block(&mut block, difficulty, u64::MAX) {
            Ok(Some(block))
        } else {
            Err(ChainError::NonceExhausted)
        }
    }
}

} // verus!
