use ethnum::U256;
use simplechain::simple_block::{SimpleBlock, SimpleRecord, SimpleTransaction};
use simplechain::error::ChainError;
use simplechain::miner::mine_block;
use simplechain::simple_chain::SimpleNode;

fn below(id: &[u8], difficulty: u8) -> bool {
    let bytes: [u8; 32] = id.try_into().unwrap();
    U256::from_be_bytes(bytes) < (U256::ONE << difficulty)
}

fn record(i: u8) -> SimpleRecord {
    SimpleRecord::new(SimpleTransaction::new(format!("from{}", i), format!("to{}", i), i as i32).serialize())
}

#[test]
fn sealed_block_meets_target() {
    let mut block = SimpleBlock::new(vec![1u8; 32], 1, vec![record(1)]);
    assert!(mine_block(&mut block, 248, u64::MAX));
    assert!(below(block.get_hash(), 248));
    let nonce = *block.get_nonce();
    let mut probe = SimpleBlock::new(vec![1u8; 32], 1, vec![record(1)]);
    for n in 0..nonce {
        probe.set_nonce(n);
        assert!(!below(probe.get_hash(), 248));
    }
}

#[test]
fn zero_ceiling_tries_only_current_nonce() {
    let mut easy = SimpleBlock::new(vec![], 1, vec![record(2)]);
    easy.set_nonce(0);
    let first = below(easy.get_hash(), 255);
    let mut again = SimpleBlock::new(vec![], 1, vec![record(2)]);
    assert_eq!(mine_block(&mut again, 255, 0), first);
    assert_eq!(*again.get_nonce(), 0);
}

#[test]
fn mining_gives_up_after_ceiling() {
    let mut block = SimpleBlock::new(vec![], 1, vec![record(3)]);
    assert!(!mine_block(&mut block, 0, 10));
    assert_eq!(*block.get_nonce(), 10);
}

#[test]
fn node_end_to_end_scenario() {
    let difficulty = 250;
    let mut node = SimpleNode::new("alice".to_string());
    let genesis = node.genesis_block(difficulty).unwrap();
    assert_eq!(*genesis.get_height(), 0);
    assert!(genesis.get_prev().is_none());
    assert!(below(genesis.get_hash(), difficulty));
    assert_eq!(genesis.get_records().len(), 1);
    let (payout, _): ((Option<String>, String, i32), usize) = bincode::decode_from_slice(
        genesis.get_records()[0].get_data(),
        bincode::config::standard(),
    )
    .unwrap();
    assert_eq!(payout, (None, "alice".to_string(), 25));

    for i in 0..7u8 {
        node.queue_record(record(i));
    }
    let block = node.mining_step(&genesis, 5, difficulty).unwrap().unwrap();
    assert_eq!(*block.get_height(), 1);
    assert_eq!(block.get_prev().as_ref(), Some(genesis.get_hash()));
    assert_eq!(block.get_records().len(), 6);
    assert!(below(block.get_hash(), difficulty));
    assert_eq!(node.queue_len(), 2);
    // the batch is the latest five records, in queue order, then the payout
    assert_eq!(block.get_records()[0].get_data(), record(2).get_data());
    assert_eq!(block.get_records()[4].get_data(), record(6).get_data());
    assert_eq!(
        block.get_records()[5].get_data(),
        &SimpleTransaction::new_mining("alice".to_string()).serialize()
    );
    assert!(node.mining_step(&block, 5, difficulty).unwrap().is_none());
    assert_eq!(node.queue_len(), 2);
}

#[test]
fn mining_step_rejects_bad_configuration() {
    let mut node = SimpleNode::new("bob".to_string());
    node.queue_record(record(1));
    let parent = SimpleBlock::new(vec![], u32::MAX, vec![record(0)]);
    assert_eq!(node.mining_step(&parent, 1, 255).err(), Some(ChainError::Configuration));
    let ok_parent = SimpleBlock::new(vec![], 0, vec![record(0)]);
    assert_eq!(node.mining_step(&ok_parent, 0, 255).err(), Some(ChainError::Configuration));
    assert_eq!(node.queue_len(), 1);
    assert_eq!(node.get_owner(), "bob");
}

#[test]
fn append_writes_block_then_tip() {
    let block = SimpleBlock::new(vec![4u8; 32], 9, vec![record(1)]);
    let writes = simplechain::simple_chain::append_writes(&block, b"last_block");
    assert_eq!(writes.len(), 2);
    assert_eq!(writes[0].0, *block.get_hash());
    assert_eq!(writes[0].1, block.serialize());
    assert_eq!(writes[1].0, b"last_block".to_vec());
    assert_eq!(writes[1].1, *block.get_hash());
}
