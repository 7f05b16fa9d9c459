use merkle_chain::block::Block;
use merkle_chain::merkle::{HashTreeError, MerkleTree};
use sha2::{Digest, Sha256};

fn batch(items: &[&str]) -> Vec<Vec<u8>> {
    items.iter().map(|s| s.as_bytes().to_vec()).collect()
}

fn sha(data: &[u8]) -> Vec<u8> {
    let mut hasher = Sha256::new();
    hasher.update(data);
    hasher.finalize().to_vec()
}

#[test]
fn block_commits_to_batch() {
    let txs = batch(&["tx1", "tx2", "tx3"]);
    let prev = vec![0u8; 32];
    let block = Block::new(txs.clone(), prev.clone()).unwrap();

    let tree = MerkleTree::new(&txs).unwrap();
    assert_eq!(block.merkle_root(), tree.root_hash());
    assert_eq!(block.prev_block_hash().clone(), prev);
    assert_eq!(block.nonce(), 0);
    assert_eq!(block.transactions().clone(), txs);
}

#[test]
fn block_hash_is_digest_of_serialized_header() {
    let txs = batch(&["tx1", "tx2"]);
    let prev = vec![7u8; 32];
    let block = Block::new(txs, prev.clone()).unwrap();

    let mut header = Vec::new();
    header.extend_from_slice(&1u32.to_le_bytes());
    header.extend_from_slice(&prev);
    header.extend_from_slice(block.merkle_root());
    header.extend_from_slice(&block.nonce().to_le_bytes());
    assert_eq!(block.hash(), sha(&header));
}

#[test]
fn empty_batch_block_rejected() {
    let txs: Vec<Vec<u8>> = Vec::new();
    match Block::new(txs, vec![0u8; 32]) {
        Err(HashTreeError::EmptyInputError) => {}
        _ => panic!("a block over an empty batch must be rejected with EmptyInputError"),
    }
}

#[test]
fn mine_zero_keeps_nonce() {
    let mut block = Block::new(batch(&["tx1"]), vec![0u8; 32]).unwrap();
    block.mine(0);
    assert_eq!(block.nonce(), 0);

    // Also from a nonzero starting nonce: difficulty zero accepts the first
    // hash, whatever the nonce is.
    block.mine(8);
    let mined = block.nonce();
    block.mine(0);
    assert_eq!(block.nonce(), mined);
}

#[test]
fn mine_eight_zeroes_first_byte() {
    let mut block = Block::new(batch(&["tx1", "tx2"]), vec![0u8; 32]).unwrap();
    block.mine(8);
    assert_eq!(block.hash()[0], 0);
}

#[test]
fn mine_twelve_zeroes_leading_bits() {
    let mut block = Block::new(batch(&["tx1", "tx2"]), vec![9u8; 32]).unwrap();
    block.mine(12);
    let hash = block.hash();
    assert_eq!(hash[0], 0);
    assert_eq!(hash[1] & 0xf0, 0);
}

#[test]
fn changing_predecessor_changes_hash() {
    let txs = batch(&["tx1", "tx2"]);
    let first = Block::new(txs.clone(), vec![0u8; 32]).unwrap();
    let second = Block::new(txs, vec![1u8; 32]).unwrap();
    assert_eq!(first.merkle_root(), second.merkle_root());
    assert_eq!(first.nonce(), second.nonce());
    assert_ne!(first.hash(), second.hash());
}
