use simplechain::simple_block::{SimpleBlock, SimpleRecord, SimpleTransaction};
use simplechain::utilities::{digest, sha3_256_hash};
use simplechain::error::ChainError;

fn sample_record() -> SimpleRecord {
    let txn1 = SimpleTransaction::new("Joseph".to_string(), "Benjamin".to_string(), 1001);
    SimpleRecord::new(txn1.serialize())
}

#[test]
fn rec_id_is_hash_of_rec_data() {
    let txn1 = SimpleTransaction::new("Joseph".to_string(), "Benjamin".to_string(), 1001);
    let rec1 = SimpleRecord::new(txn1.serialize());
    assert_eq!(rec1.hash(), *rec1.get_id());
}

#[test]
fn can_get_records_size_from_block() {
    let txn1 = SimpleTransaction::new("Joseph".to_string(), "Benjamin".to_string(), 1001);
    let rec1 = SimpleRecord::new(txn1.serialize());
    let block1 = SimpleBlock::new(vec![], 42, vec![rec1]);
    let rec2 = SimpleRecord::new(txn1.serialize());
    let rec3 = SimpleRecord::new(txn1.serialize());
    let block2 = SimpleBlock::new(vec![], 42, vec![rec2, rec3]);
    println!("block1 size: {}", block1.get_records_size());
    println!("block2 size: {}", block2.get_records_size());
    assert_ne!(block1.get_records_size(), block2.get_records_size());
}

#[test]
fn changing_nonce_changes_block_hash() {
    let txn1 = SimpleTransaction::new("Joseph".to_string(), "Benjamin".to_string(), 1001);
    let rec1 = SimpleRecord::new(txn1.serialize());
    let mut block1 = SimpleBlock::new(vec![], 42, vec![rec1]);
    let hash1 = block1.get_hash().clone();
    block1.set_nonce(1);
    let hash2 = block1.get_hash().clone();
    assert_ne!(hash1, hash2);
}

#[test]
fn digest_of_known_inputs() {
    assert_eq!(
        digest(b""),
        "a7ffc6f8bf1ed76651c14756a061d662f580ff4de43b49fa82d80a4b80f8434a"
    );
    assert_eq!(
        digest(b"abc"),
        "3a985da74fe225b2045c172d6bd390bd855f086e3e9d525b46bfe24511431532"
    );
    assert_eq!(sha3_256_hash(b"abc").len(), 32);
}

#[test]
fn record_id_is_digest_of_data() {
    let data = vec![1u8, 2, 3, 250, 251];
    let rec = SimpleRecord::new(data.clone());
    assert_eq!(*rec.get_id(), sha3_256_hash(&data));
    assert_eq!(*rec.get_data(), data);
}

#[test]
fn transaction_encoding_matches_exact_bytes() {
    let bytes = SimpleTransaction::new("Joseph".to_string(), "Benjamin".to_string(), 1001).serialize();
    let mut expected = vec![1u8, 6];
    expected.extend_from_slice(b"Joseph");
    expected.push(8);
    expected.extend_from_slice(b"Benjamin");
    // 1001 zigzags to 2002, which takes the two-byte form
    expected.extend_from_slice(&[251, 0xD2, 0x07]);
    assert_eq!(bytes, expected);
    let tuple = (Some("Joseph".to_string()), "Benjamin".to_string(), 1001i32);
    assert_eq!(bytes, bincode::encode_to_vec(&tuple, bincode::config::standard()).unwrap());
}

#[test]
fn negative_amount_and_payout_encoding() {
    let bytes = SimpleTransaction::new("a".to_string(), "b".to_string(), -3).serialize();
    assert_eq!(bytes, vec![1u8, 1, b'a', 1, b'b', 5]);
    let payout = SimpleTransaction::new_mining("alice".to_string()).serialize();
    assert_eq!(payout, vec![0u8, 5, b'a', b'l', b'i', b'c', b'e', 50]);
}

#[test]
fn transaction_round_trips_through_bincode_tuple() {
    let bytes = SimpleTransaction::new_mining("alice".to_string()).serialize();
    let (decoded, used): ((Option<String>, String, i32), usize) =
        bincode::decode_from_slice(&bytes, bincode::config::standard()).unwrap();
    assert_eq!(used, bytes.len());
    assert_eq!(decoded, (None, "alice".to_string(), 25));
}

#[test]
fn block_encoding_matches_field_tuple() {
    let rec = sample_record();
    let rec_id = rec.get_id().clone();
    let rec_data = rec.get_data().clone();
    let block = SimpleBlock::new(vec![9u8; 32], 300, vec![rec]);
    let tuple = (
        block.get_hash().clone(),
        Some(vec![9u8; 32]),
        300u32,
        vec![(rec_id, rec_data)],
        block.get_record_hash().clone(),
        0u64,
    );
    let expected = bincode::encode_to_vec(&tuple, bincode::config::standard()).unwrap();
    assert_eq!(block.serialize(), expected);
}

#[test]
fn block_id_is_digest_of_header_only() {
    let rec = sample_record();
    let mut block = SimpleBlock::new(vec![7u8; 32], 5, vec![rec]);
    block.set_nonce(70000);
    let header = (
        Vec::<u8>::new(),
        Some(vec![7u8; 32]),
        5u32,
        Vec::<(Vec<u8>, Vec<u8>)>::new(),
        block.get_record_hash().clone(),
        70000u64,
    );
    let bytes = bincode::encode_to_vec(&header, bincode::config::standard()).unwrap();
    assert_eq!(*block.get_hash(), sha3_256_hash(&bytes));
}

#[test]
fn record_digest_depends_on_order() {
    let a = SimpleRecord::new(vec![1u8]);
    let b = SimpleRecord::new(vec![2u8]);
    let a2 = SimpleRecord::new(vec![1u8]);
    let b2 = SimpleRecord::new(vec![2u8]);
    let x = SimpleBlock::new(vec![], 1, vec![a, b]);
    let y = SimpleBlock::new(vec![], 1, vec![b2, a2]);
    assert_ne!(x.get_record_hash(), y.get_record_hash());
    assert_ne!(x.get_hash(), y.get_hash());
}

#[test]
fn recomputing_reproduces_block_id() {
    let rec = sample_record();
    let mut block = SimpleBlock::new(vec![1u8; 32], 3, vec![rec]);
    block.set_nonce(12);
    let id = block.get_hash().clone();
    block.rehash();
    assert_eq!(*block.get_hash(), id);
    let rebuilt = SimpleBlock::new(vec![1u8; 32], 3, vec![sample_record()]);
    assert_eq!(rebuilt.get_record_hash(), block.get_record_hash());
    let mut again = rebuilt;
    again.set_nonce(12);
    assert_eq!(*again.get_hash(), id);
}

#[test]
fn increment_nonce_matches_set_nonce() {
    let mut a = SimpleBlock::new(vec![], 1, vec![sample_record()]);
    let mut b = SimpleBlock::new(vec![], 1, vec![sample_record()]);
    a.increment_nonce();
    a.increment_nonce();
    b.set_nonce(2);
    assert_eq!(*a.get_nonce(), 2);
    assert_eq!(a.get_hash(), b.get_hash());
}

#[test]
fn genesis_block_shape() {
    let g = SimpleBlock::new_genesis(sample_record());
    assert_eq!(*g.get_height(), 0);
    assert!(g.get_prev().is_none());
    assert_eq!(*g.get_nonce(), 0);
    assert_eq!(g.get_records().len(), 1);
    assert_eq!(g.get_hash().len(), 32);
}

#[test]
fn block_round_trip() {
    let recs = vec![sample_record(), SimpleRecord::new(vec![0u8; 300])];
    let mut block = SimpleBlock::new(vec![3u8; 32], 70000, recs);
    block.set_nonce(5_000_000_000);
    let bytes = block.serialize();
    let back = SimpleBlock::deserialize(&bytes).unwrap();
    assert_eq!(back.get_hash(), block.get_hash());
    assert_eq!(back.get_prev(), block.get_prev());
    assert_eq!(*back.get_height(), 70000);
    assert_eq!(*back.get_nonce(), 5_000_000_000);
    assert_eq!(back.get_record_hash(), block.get_record_hash());
    assert_eq!(back.get_records().len(), 2);
    assert_eq!(back.get_records()[1].get_data(), &vec![0u8; 300]);
    assert_eq!(back.serialize(), bytes);
    let mut copy = back;
    copy.rehash();
    assert_eq!(copy.get_hash(), block.get_hash());
}

#[test]
fn genesis_round_trip() {
    let g = SimpleBlock::new_genesis(sample_record());
    let back = SimpleBlock::deserialize(&g.serialize()).unwrap();
    assert!(back.get_prev().is_none());
    assert_eq!(back.get_hash(), g.get_hash());
}

#[test]
fn record_round_trip() {
    let rec = sample_record();
    let back = SimpleRecord::deserialize(&rec.serialize()).unwrap();
    assert_eq!(back.get_id(), rec.get_id());
    assert_eq!(back.get_data(), rec.get_data());
}

#[test]
fn decoding_rejects_malformed_input() {
    let block = SimpleBlock::new(vec![3u8; 32], 2, vec![sample_record()]);
    let bytes = block.serialize();
    assert_eq!(SimpleBlock::deserialize(&bytes[..bytes.len() - 1]).err(), Some(ChainError::Codec));
    let mut longer = bytes.clone();
    longer.push(0);
    assert_eq!(SimpleBlock::deserialize(&longer).err(), Some(ChainError::Codec));
    assert_eq!(SimpleBlock::deserialize(&[]).err(), Some(ChainError::Codec));
    let mut bad_tag = bytes.clone();
    bad_tag[33] = 7;
    assert_eq!(SimpleBlock::deserialize(&bad_tag).err(), Some(ChainError::Codec));
    // a length of 5 written in the three-byte form is not the shortest encoding
    assert_eq!(SimpleRecord::deserialize(&[251, 5, 0, 0]).err(), Some(ChainError::Codec));
    assert!(SimpleRecord::deserialize(&[0, 0]).is_ok());
    assert_eq!(SimpleRecord::deserialize(&[254, 0]).err(), Some(ChainError::Codec));
}

#[test]
fn transaction_round_trip() {
    let t = SimpleTransaction::new("Jos\u{e9}".to_string(), "\u{1F600}x".to_string(), i32::MIN);
    let bytes = t.serialize();
    let back = SimpleTransaction::deserialize(&bytes).unwrap();
    assert_eq!(back.serialize(), bytes);
    let payout = SimpleTransaction::new_mining("alice".to_string());
    let back = SimpleTransaction::deserialize(&payout.serialize()).unwrap();
    assert_eq!(back.serialize(), payout.serialize());
    let max = SimpleTransaction::new("a".to_string(), "b".to_string(), i32::MAX);
    assert_eq!(SimpleTransaction::deserialize(&max.serialize()).unwrap().serialize(), max.serialize());
}

#[test]
fn transaction_decoding_rejects_malformed_input() {
    // invalid UTF-8 in the recipient
    assert_eq!(SimpleTransaction::deserialize(&[0, 1, 0xFF, 2]).err(), Some(ChainError::Codec));
    // a tag that is neither 0 nor 1
    assert_eq!(SimpleTransaction::deserialize(&[2, 1, b'a', 2]).err(), Some(ChainError::Codec));
    // trailing byte
    assert_eq!(SimpleTransaction::deserialize(&[0, 1, b'a', 2, 0]).err(), Some(ChainError::Codec));
    // an amount beyond 32 bits
    assert_eq!(
        SimpleTransaction::deserialize(&[0, 1, b'a', 253, 0, 0, 0, 0, 1, 0, 0, 0]).err(),
        Some(ChainError::Codec)
    );
    let ok = SimpleTransaction::deserialize(&[0, 1, b'a', 3]).unwrap();
    assert_eq!(ok.serialize(), vec![0, 1, b'a', 3]);
}
