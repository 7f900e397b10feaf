use ledger::block::{Block, Transaction};
use ledger::chain::Blockchain;

fn tx(sender: &str, recipient: &str, amount: f64) -> Transaction {
    Transaction {
        sender: sender.to_string(),
        recipient: recipient.to_string(),
        amount_bits: amount.to_bits(),
    }
}

fn chain_with(batches: usize) -> Blockchain {
    let mut c = Blockchain::new();
    for i in 0..batches {
        c.add_block(vec![tx("a", "b", 1.0 + i as f64)]);
    }
    c
}

fn text_chars(c: &Blockchain) -> Vec<char> {
    c.to_text().chars().collect()
}

#[test]
fn genesis_chain_shape() {
    let c = Blockchain::new();
    assert_eq!(c.blocks.len(), 1);
    assert_eq!(c.difficulty, 2);
    assert_eq!(c.blocks[0].previous_hash, "0");
    assert!(c.blocks[0].transactions.is_empty());
    assert_eq!(c.blocks[0].nonce, 0);
    assert_eq!(c.blocks[0].hash, c.blocks[0].calculate_hash());
}

#[test]
fn append_links_and_mines() {
    let mut c = Blockchain::new();
    c.add_block(vec![tx("a", "b", 10.0)]);
    assert_eq!(c.blocks.len(), 2);
    assert_eq!(c.blocks[1].previous_hash, c.blocks[0].hash);
    assert_eq!(c.blocks[1].transactions.len(), 1);
    assert_eq!(c.blocks[1].transactions[0].sender, "a");
    assert_eq!(c.blocks[1].transactions[0].recipient, "b");
    assert_eq!(c.blocks[1].transactions[0].amount_bits, (10.0f64).to_bits());
    assert!(c.blocks[1].hash.starts_with("00"));
}

#[test]
fn hash_consistent_after_mining() {
    let c = chain_with(2);
    for b in &c.blocks {
        assert_eq!(b.hash, b.calculate_hash());
    }
}

#[test]
fn mined_blocks_have_zero_prefix() {
    let c = chain_with(3);
    for b in c.blocks.iter().skip(1) {
        assert!(b.hash.starts_with("00"));
        assert_eq!(b.hash.len(), 64);
    }
}

#[test]
fn three_appends_validate() {
    let mut c = Blockchain::new();
    c.add_block(vec![tx("a", "b", 1.0)]);
    c.add_block(vec![tx("b", "c", 2.5), tx("c", "a", -3.0)]);
    c.add_block(vec![]);
    assert_eq!(c.blocks.len(), 4);
    assert!(c.validate());
}

#[test]
fn tamper_amount_detected() {
    let mut c = chain_with(3);
    assert!(c.validate());
    c.blocks[1].transactions[0].amount_bits ^= 1;
    assert!(!c.validate());
}

#[test]
fn tamper_sender_detected() {
    let mut c = chain_with(2);
    c.blocks[1].transactions[0].sender = "mallory".to_string();
    assert!(!c.validate());
}

#[test]
fn tamper_nonce_detected() {
    let mut c = chain_with(2);
    c.blocks[1].nonce = c.blocks[1].nonce.wrapping_add(1);
    assert!(!c.validate());
}

#[test]
fn tamper_timestamp_detected() {
    let mut c = chain_with(2);
    c.blocks[1].timestamp += 1;
    assert!(!c.validate());
}

#[test]
fn tamper_previous_hash_detected() {
    let mut c = chain_with(2);
    c.blocks[2].previous_hash = c.blocks[0].hash.clone();
    assert!(!c.validate());
}

#[test]
fn deleted_block_detected() {
    let mut c = chain_with(3);
    c.blocks.remove(1);
    assert!(!c.validate());
}

#[test]
fn reordered_blocks_detected() {
    let mut c = chain_with(3);
    c.blocks.swap(1, 2);
    assert!(!c.validate());
}

#[test]
fn round_trip_genesis_only() {
    let c = Blockchain::new();
    let restored = Blockchain::from_text(&text_chars(&c)).unwrap();
    assert_eq!(restored, c);
}

#[test]
fn round_trip_longer_chain() {
    let mut c = Blockchain::new();
    c.add_block(vec![tx("a", "b", 10.0)]);
    c.add_block(vec![]);
    c.add_block(vec![tx("x", "y", -0.5), tx("", "", 0.0)]);
    c.add_block(vec![tx("multi word sender", "line\nbreak recipient", 2.0)]);
    c.add_block(vec![tx("e", "f", f64::MAX)]);
    assert_eq!(c.blocks.len(), 6);
    let restored = Blockchain::from_text(&text_chars(&c)).unwrap();
    assert_eq!(restored, c);
    assert!(restored.validate());
}

#[test]
fn corrupted_storage_detected_on_reload() {
    let mut c = Blockchain::new();
    c.add_block(vec![tx("a", "b", 10.0)]);
    c.add_block(vec![tx("b", "c", 1.0)]);
    c.add_block(vec![tx("c", "a", 2.0)]);
    assert!(c.validate());
    let stored = c.to_text();
    // 10.0 stores as the bit pattern 4621819117588971520; corrupt one digit.
    assert!(stored.contains("4621819117588971520"));
    let corrupted = stored.replace("4621819117588971520", "4621819117588971521");
    let reloaded = Blockchain::from_text(&corrupted.chars().collect()).unwrap();
    assert!(!reloaded.validate());
    assert_eq!(reloaded.blocks[1].transactions[0].amount_bits, 4621819117588971521);
}

#[test]
fn decode_rejects_garbage() {
    assert!(Blockchain::from_text(&Vec::new()).is_err());
    assert!(Blockchain::from_text(&"hello".chars().collect()).is_err());
    assert!(Blockchain::from_text(&"2\n1\n".chars().collect()).is_err());
}

#[test]
fn decode_rejects_trailing_text() {
    let c = Blockchain::new();
    let mut chars = text_chars(&c);
    chars.push(' ');
    assert!(Blockchain::from_text(&chars).is_err());
}

#[test]
fn decode_rejects_truncation() {
    let c = chain_with(1);
    let mut chars = text_chars(&c);
    chars.pop();
    assert!(Blockchain::from_text(&chars).is_err());
}

#[test]
fn decode_rejects_leading_zero_numbers() {
    let c = Blockchain::new();
    let stored = c.to_text();
    // The difficulty line reads "2"; "02" is not canonical.
    let padded = format!("0{}", stored);
    assert!(Blockchain::from_text(&padded.chars().collect()).is_err());
}

#[test]
fn digest_matches_known_vector() {
    // A block with fixed fields has the preimage "0\n0\n1 0\n0\n", whose
    // SHA-256 digest is known; the stored hash must be its hex rendering.
    let b = Block {
        timestamp: 0,
        transactions: vec![],
        previous_hash: "0".to_string(),
        nonce: 0,
        hash: String::new(),
    };
    assert_eq!(
        b.calculate_hash(),
        "a4ed53f25a647c759744bb7c29d15dce7818b841fec8c3e177367f03d6cf532f"
    );
}

#[test]
fn mining_reports_success() {
    let mut b = Block::new_block(vec![tx("a", "b", 3.0)], "0".to_string());
    assert!(b.mine_block(2));
    assert!(b.hash.starts_with("00"));
    assert_eq!(b.hash, b.calculate_hash());
}

#[test]
fn stored_text_is_line_structured() {
    let c = Blockchain::new();
    let stored = c.to_text();
    assert!(stored.starts_with("2\n1\n"));
    assert!(stored.ends_with("\n"));
}

#[test]
fn snapshot_is_deep_and_equal() {
    let mut c = chain_with(2);
    let snap = c.snapshot();
    assert_eq!(snap, c);
    c.add_block(vec![tx("d", "e", 4.0)]);
    assert_eq!(snap.blocks.len(), 3);
    assert_eq!(c.blocks.len(), 4);
    assert!(snap.validate());
}

#[test]
fn decode_rejects_zero_blocks() {
    // A stored chain always holds a genesis block; a zero count is refused.
    assert!(Blockchain::from_text(&"2\n0\n".chars().collect()).is_err());
}

#[test]
fn mining_twice_changes_nothing() {
    let mut b = Block::new_block(vec![tx("a", "b", 3.0)], "0".to_string());
    assert!(b.mine_block(2));
    let nonce = b.nonce;
    let hash = b.hash.clone();
    assert!(b.mine_block(2));
    assert_eq!(b.nonce, nonce);
    assert_eq!(b.hash, hash);
}

#[test]
fn mining_met_target_is_identity() {
    // Difficulty zero is met by any digest, so mining touches nothing.
    let mut b = Block::new_block(vec![tx("a", "b", 3.0)], "0".to_string());
    let hash = b.hash.clone();
    assert!(b.mine_block(0));
    assert_eq!(b.nonce, 0);
    assert_eq!(b.hash, hash);
}
