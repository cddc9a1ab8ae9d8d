use aether::current_timestamp;
use aether::utils::millis_to_timestamp;
use aether::sha256_digest;
use aether::Block;
use aether::BlockError;
use aether::ProofOfWork;
use aether::Transaction;

fn put_u64(out: &mut Vec<u8>, x: u64) {
    out.extend_from_slice(&x.to_be_bytes());
}

fn encode_block(ts: i64, pre: &str, hash: &str, ids: &[&[u8]], nonce: i64, height: u64) -> Vec<u8> {
    let mut out = Vec::new();
    put_u64(&mut out, ts as u64);
    put_u64(&mut out, pre.len() as u64);
    out.extend_from_slice(pre.as_bytes());
    put_u64(&mut out, hash.len() as u64);
    out.extend_from_slice(hash.as_bytes());
    put_u64(&mut out, ids.len() as u64);
    for id in ids {
        put_u64(&mut out, id.len() as u64);
        out.extend_from_slice(id);
    }
    put_u64(&mut out, nonce as u64);
    put_u64(&mut out, height);
    out
}

fn to_hex(bytes: &[u8]) -> String {
    let mut hex = String::new();
    for b in bytes {
        hex.push_str(&format!("{:02x}", b));
    }
    hex
}

fn hex_to_bytes(s: &str) -> Vec<u8> {
    let chars: Vec<char> = s.chars().collect();
    let mut out = Vec::new();
    for pair in chars.chunks(2) {
        let hi = pair[0].to_digit(16).unwrap() as u8;
        let lo = pair[1].to_digit(16).unwrap() as u8;
        out.push(hi * 16 + lo);
    }
    out
}

#[test]
fn test_sha256_digest_known_vectors() {
    assert_eq!(
        sha256_digest(b""),
        hex_to_bytes("e3b0c44298fc1c149afbf4c8996fb92427ae41e4649b934ca495991b7852b855")
    );
    assert_eq!(
        sha256_digest(b"abc"),
        hex_to_bytes("ba7816bf8f01cfea414140de5dae2223b00361a396177a9cb410ff61f20015ad")
    );
}

#[test]
fn test_current_timestamp_nonnegative() {
    let t = current_timestamp().unwrap();
    assert!(t >= 0);
}

#[test]
fn test_new_block() {
    let transaction = Transaction::new(b"Alice".to_vec());
    let transactions = vec![transaction];
    let block = Block::new_block("0".to_string(), &transactions, 0).unwrap();

    assert_eq!(block.get_pre_block_hash(), "0");
    assert_eq!(block.get_transactions().len(), 1);
    assert_eq!(block.get_height(), 0);
}

#[test]
fn test_genesis_block() {
    let transaction = Transaction::new(b"Alice".to_vec());
    let genesis_block = Block::generate_genesis_block(&transaction).unwrap();

    assert_eq!(genesis_block.get_pre_block_hash(), "None");
    assert_eq!(genesis_block.get_transactions().len(), 1);
    assert_eq!(genesis_block.get_transactions()[0].get_id(), &b"Alice".to_vec());
    assert_eq!(genesis_block.get_height(), 0);
    // TARGET_BITS = 8: the winning digest's first byte is zero.
    let hash = genesis_block.get_hash();
    assert_eq!(hash.len(), 64);
    assert!(hash.starts_with("00"));
    assert!(hash.chars().all(|c| c.is_ascii_hexdigit() && !c.is_ascii_uppercase()));
    assert_eq!(genesis_block.get_hash_bytes(), hash.as_bytes().to_vec());
}

#[test]
fn test_block_serialization_round_trip() {
    let transaction = Transaction::new(b"Alice".to_vec());
    let transactions = vec![transaction];
    let block = Block::new_block("0".to_string(), &transactions, 0).unwrap();
    let serialized_block = block.serialize();
    let deserialized_block = Block::deserialize(&serialized_block).unwrap();

    assert_eq!(block.get_hash(), deserialized_block.get_hash());
    assert_eq!(block.get_pre_block_hash(), deserialized_block.get_pre_block_hash());
    assert_eq!(block.get_timestamp(), deserialized_block.get_timestamp());
    assert_eq!(block.get_height(), deserialized_block.get_height());
    assert_eq!(block.get_transactions().len(), deserialized_block.get_transactions().len());
    // Byte-identical round trip.
    assert_eq!(deserialized_block.serialize(), serialized_block);
}

#[test]
fn test_serialize_exact_bytes() {
    let bytes = encode_block(5, "ab", "cd", &[&[1, 2, 3]], 7, 9);
    let block = Block::deserialize(&bytes).unwrap();
    assert_eq!(block.get_timestamp(), 5);
    assert_eq!(block.get_pre_block_hash(), "ab");
    assert_eq!(block.get_hash(), "cd");
    assert_eq!(block.get_height(), 9);
    assert_eq!(block.get_transactions()[0].get_id(), &vec![1u8, 2, 3]);
    assert_eq!(block.serialize(), bytes);
}

#[test]
fn test_serialize_negative_values_round_trip() {
    // A negative timestamp and nonce still round-trip byte for byte.
    let bytes = encode_block(-1, "x", "", &[], -2, 0);
    let block = Block::deserialize(&bytes).unwrap();
    assert_eq!(block.get_timestamp(), -1);
    assert_eq!(block.serialize(), bytes);
}

#[test]
fn test_deserialize_rejects_malformed() {
    assert!(matches!(Block::deserialize(&[]), Err(BlockError::DecodeError)));
    assert!(matches!(Block::deserialize(&[0u8; 7]), Err(BlockError::DecodeError)));
    // A length prefix that runs past the end.
    let mut bytes = vec![0u8; 8];
    put_u64(&mut bytes, 1000);
    assert!(matches!(Block::deserialize(&bytes), Err(BlockError::DecodeError)));
    // Trailing garbage after a valid encoding.
    let mut ok = encode_block(5, "ab", "cd", &[&[1, 2, 3]], 7, 9);
    ok.push(0);
    assert!(matches!(Block::deserialize(&ok), Err(BlockError::DecodeError)));
}

#[test]
fn test_deserialize_rejects_invalid_utf8() {
    let mut bytes = Vec::new();
    put_u64(&mut bytes, 5);
    put_u64(&mut bytes, 1);
    bytes.push(0xff);
    put_u64(&mut bytes, 0);
    put_u64(&mut bytes, 0);
    put_u64(&mut bytes, 0);
    put_u64(&mut bytes, 0);
    assert!(matches!(Block::deserialize(&bytes), Err(BlockError::DecodeError)));
}

#[test]
fn test_hash_transactions_order_sensitive() {
    let a = Transaction::new(b"aaaaa".to_vec());
    let b = Transaction::new(b"bbbbb".to_vec());
    let block_ab = Block::new_block("0".to_string(), &vec![a.clone(), b.clone()], 0).unwrap();
    let block_ba = Block::new_block("0".to_string(), &vec![b, a], 0).unwrap();
    assert_ne!(block_ab.hash_transactions(), block_ba.hash_transactions());
}

#[test]
fn test_hash_transactions_is_flat_digest() {
    let a = Transaction::new(b"Al".to_vec());
    let b = Transaction::new(b"ice".to_vec());
    let block = Block::new_block("0".to_string(), &vec![a, b], 0).unwrap();
    assert_eq!(block.hash_transactions(), sha256_digest(b"Alice"));
}

#[test]
fn test_mining_deterministic_and_layout() {
    let bytes = encode_block(1234567, "prevhash", "", &[b"Alice"], 0, 1);
    let block = Block::deserialize(&bytes).unwrap();
    let pow1 = ProofOfWork::new_proof_of_work(block.clone());
    let (n1, h1) = pow1.run().unwrap();
    let pow2 = ProofOfWork::new_proof_of_work(block.clone());
    let (n2, h2) = pow2.run().unwrap();
    assert_eq!(n1, n2);
    assert_eq!(h1, h2);

    // Recompute the digest from the documented mining-input layout.
    let mut data = Vec::new();
    data.extend_from_slice(b"prevhash");
    data.extend_from_slice(&sha256_digest(b"Alice"));
    data.extend_from_slice(&1234567i64.to_be_bytes());
    data.extend_from_slice(&8u32.to_be_bytes());
    data.extend_from_slice(&n1.to_be_bytes());
    let digest = sha256_digest(&data);
    assert_eq!(digest[0], 0);
    assert_eq!(h1, to_hex(&digest));
    // No earlier nonce qualifies.
    for n in 0..n1 {
        let mut d = Vec::new();
        d.extend_from_slice(b"prevhash");
        d.extend_from_slice(&sha256_digest(b"Alice"));
        d.extend_from_slice(&1234567i64.to_be_bytes());
        d.extend_from_slice(&8u32.to_be_bytes());
        d.extend_from_slice(&n.to_be_bytes());
        assert_ne!(sha256_digest(&d)[0], 0);
    }
}

#[test]
fn test_target_bits_zero_accepts_first_nonce() {
    let bytes = encode_block(42, "p", "", &[b"x"], 0, 3);
    let block = Block::deserialize(&bytes).unwrap();
    let pow = ProofOfWork::with_target_bits(block, 0);
    let (nonce, hash) = pow.run().unwrap();
    assert_eq!(nonce, 0);
    assert_eq!(hash.len(), 64);
}

#[test]
fn test_millis_to_timestamp() {
    assert_eq!(millis_to_timestamp(Some(5)), Ok(5));
    assert_eq!(millis_to_timestamp(Some(0)), Ok(0));
    assert_eq!(millis_to_timestamp(Some(i64::MAX as u128)), Ok(i64::MAX));
    assert_eq!(
        millis_to_timestamp(Some(i64::MAX as u128 + 1)),
        Err(BlockError::ClockError)
    );
    assert_eq!(millis_to_timestamp(None), Err(BlockError::ClockError));
}
