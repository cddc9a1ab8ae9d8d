//! The mining engine: derives the difficulty target, re-derives the byte
//! representation of the candidate header, and searches the nonce space.
use crate::big_endian::{
    be_less, be_value, lemma_be_value_append, lemma_be_value_bound, target_for_bits, u32_be,
    u32_to_be_bytes, u64_be, u64_to_be_bytes,
};
use crate::block::{ids_concat, Block, BlockModel};
use crate::errors::BlockError;
use crate::utils::{hex_encode, hex_of, push_bytes, sha256_digest, sha256_of};
use vstd::arithmetic::power2::pow2;
use vstd::prelude::*;
use vstd::utf8::encode_utf8;

verus! {

/// The difficulty used by block construction: a qualifying hash must fall
/// strictly below `2^(256 - TARGET_BITS)`.
pub const TARGET_BITS: u32 = 8;

/// The exclusive upper bound of the nonce search.
pub const MAX_NONCE: i64 = i64::MAX;

/// A signed 64-bit value read as its two's-complement bit pattern.
pub open spec fn i64_wrap(x: i64) -> u64 {
    if x >= 0 {
        x as u64
    } else {
        ((x as int) + 0x1_0000_0000_0000_0000) as u64
    }
}

/// Converts a signed 64-bit value to its two's-complement bit pattern.
pub fn i64_bits(x: i64) -> (r: u64)
    ensures
        r == i64_wrap(x),
{
    if x >= 0 {
        x as u64
    } else {
        (x - i64::MIN) as u64 + 0x8000_0000_0000_0000u64
    }
}

/// Recovers the signed 64-bit value from its two's-complement bit pattern.
pub fn u64_to_i64_bits(v: u64) -> (x: i64)
    ensures
        i64_wrap(x) == v,
{
    if v <= i64::MAX as u64 {
        v as i64
    } else {
        ((v - 0x8000_0000_0000_0000u64) as i64) + i64::MIN
    }
}

/// Two's-complement bit patterns determine the signed value.
pub proof fn lemma_i64_wrap_injective(x: i64, y: i64)
    requires
        i64_wrap(x) == i64_wrap(y),
    ensures
        x == y,
{
    if x >= 0 {
        assert(i64_wrap(x) < 0x8000_0000_0000_0000u64);
    } else {
        assert(i64_wrap(x) >= 0x8000_0000_0000_0000u64);
    }
    if y >= 0 {
        assert(i64_wrap(y) < 0x8000_0000_0000_0000u64);
    } else {
        assert(i64_wrap(y) >= 0x8000_0000_0000_0000u64);
    }
}

/// The byte string hashed during mining, in this exact order: the previous
/// hash as UTF-8 bytes, the transaction-list digest, the 8-byte big-endian
/// timestamp, the 4-byte big-endian difficulty bits, and the 8-byte
/// big-endian nonce.
pub open spec fn pow_input(m: BlockModel, bits: u32, nonce: i64) -> Seq<u8> {
    encode_utf8(m.pre_block_hash) + sha256_of(ids_concat(m.transactions)) + u64_be(
        i64_wrap(m.timestamp),
    ) + u32_be(bits) + u64_be(i64_wrap(nonce))
}

/// Whether a nonce wins: the digest of the mining input, read as a
/// big-endian unsigned integer, is strictly below `2^(256 - bits)`.
pub open spec fn qualifies(m: BlockModel, bits: u32, nonce: i64) -> bool
    recommends
        bits <= 256,
{
    be_value(sha256_of(pow_input(m, bits, nonce))) < pow2((256 - bits) as nat)
}

/// No nonce below `MAX_NONCE` makes this header's digest beat the target.
pub open spec fn mining_exhausted(m: BlockModel, bits: u32) -> bool {
    forall|k: i64| 0 <= k < MAX_NONCE ==> !qualifies(m, bits, k)
}

/// What mining establishes of a finished block: the nonce is the first
/// qualifying one in ascending order, and the hash is the lowercase hex of
/// the digest at that nonce.
pub open spec fn mined(m: BlockModel, bits: u32) -> bool {
    &&& 0 <= m.nonce < MAX_NONCE
    &&& qualifies(m, bits, m.nonce)
    &&& (forall|k: i64| 0 <= k < m.nonce ==> !qualifies(m, bits, k))
    &&& m.hash == hex_of(sha256_of(pow_input(m, bits, m.nonce)))
}

/// Mining is deterministic: two mined blocks that agree on the previous
/// hash, the transaction list, the timestamp and the difficulty carry the
/// same nonce and the same hash.
pub proof fn lemma_mining_deterministic(m1: BlockModel, m2: BlockModel, bits: u32)
    requires
        mined(m1, bits),
        mined(m2, bits),
        m1.pre_block_hash == m2.pre_block_hash,
        m1.transactions == m2.transactions,
        m1.timestamp == m2.timestamp,
    ensures
        m1.nonce == m2.nonce,
        m1.hash == m2.hash,
{
    assert forall|k: i64| pow_input(m1, bits, k) == pow_input(m2, bits, k) by {};
    if m1.nonce < m2.nonce {
        assert(!qualifies(m2, bits, m1.nonce));
        assert(qualifies(m1, bits, m1.nonce));
        assert(false);
    }
    if m2.nonce < m1.nonce {
        assert(!qualifies(m1, bits, m2.nonce));
        assert(qualifies(m2, bits, m2.nonce));
        assert(false);
    }
    assert(pow_input(m1, bits, m1.nonce) == pow_input(m2, bits, m2.nonce));
}

/// A single-use mining engine: a working copy of the block and the
/// difficulty target it must beat.
pub struct ProofOfWork {
    block: Block,
    target: Vec<u8>,
    target_bits: u32,
}

impl ProofOfWork {
    /// The block being mined.
    pub closed spec fn spec_block(&self) -> BlockModel {
        self.block@
    }

    /// The difficulty bits the engine was built with.
    pub closed spec fn spec_bits(&self) -> u32 {
        self.target_bits
    }

    /// The stored target is the 33-byte big-endian form of `2^(256 - bits)`.
    pub closed spec fn wf(&self) -> bool {
        &&& self.target_bits <= 256
        &&& self.target@.len() == 33
        &&& be_value(self.target@) == pow2((256 - self.target_bits) as nat)
    }

    /// Builds the engine for a block at the chain's difficulty.
    pub fn new_proof_of_work(block: Block) -> (p: ProofOfWork)
        ensures
            p.wf(),
            p.spec_block() == block@,
            p.spec_bits() == TARGET_BITS,
    {
        Self::with_target_bits(block, TARGET_BITS)
    }

    /// Builds the engine with an explicit difficulty, for chains or tests
    /// that need one other than the default.
    pub fn with_target_bits(block: Block, target_bits: u32) -> (p: ProofOfWork)
        requires
            target_bits <= 256,
        ensures
            p.wf(),
            p.spec_block() == block@,
            p.spec_bits() == target_bits,
    {
        let target = target_for_bits(target_bits);
        ProofOfWork { block, target, target_bits }
    }

    /// Assembles the mining input for one candidate nonce.
    fn prepare_data(&self, nonce: i64) -> (d: Vec<u8>)
        ensures
            d@ == pow_input(self.spec_block(), self.spec_bits(), nonce),
    {
        let pre_block_hash = self.block.get_pre_block_hash();
        let transactions_hash = self.block.hash_transactions();
        let timestamp = self.block.get_timestamp();
        let mut data_bytes: Vec<u8> = Vec::new();
        push_bytes(&mut data_bytes, pre_block_hash.as_str().as_bytes());
        push_bytes(&mut data_bytes, transactions_hash.as_slice());
        let ts_bytes = u64_to_be_bytes(i64_bits(timestamp));
        push_bytes(&mut data_bytes, ts_bytes.as_slice());
        let bits_bytes = u32_to_be_bytes(self.target_bits);
        push_bytes(&mut data_bytes, bits_bytes.as_slice());
        let nonce_bytes = u64_to_be_bytes(i64_bits(nonce));
        push_bytes(&mut data_bytes, nonce_bytes.as_slice());
        proof {
            assert(data_bytes@ =~= pow_input(self.spec_block(), self.spec_bits(), nonce));
        }
        data_bytes
    }

    /// Searches nonces in ascending order from zero and returns the first
    /// qualifying one with the lowercase-hex digest, or `MiningExhausted`
    /// when no nonce below `MAX_NONCE` qualifies.
    pub fn run(&self) -> (r: Result<(i64, String), BlockError>)
        requires
            self.wf(),
        ensures
            r matches Ok(p) ==> {
                &&& 0 <= p.0 < MAX_NONCE
                &&& qualifies(self.spec_block(), self.spec_bits(), p.0)
                &&& (forall|k: i64|
                    0 <= k < p.0 ==> !qualifies(self.spec_block(), self.spec_bits(), k))
                &&& p.1@ == hex_of(
                    sha256_of(pow_input(self.spec_block(), self.spec_bits(), p.0)),
                )
                &&& p.1@.len() == 64
            },
            r matches Err(e) ==> {
                &&& e == BlockError::MiningExhausted
                &&& mining_exhausted(self.spec_block(), self.spec_bits())
            },
            self.spec_bits() == 0 ==> (r matches Ok(p) && p.0 == 0),
    {
        let mut nonce: i64 = 0;
        while nonce < MAX_NONCE
            invariant
                self.wf(),
                0 <= nonce <= MAX_NONCE,
                forall|k: i64| 0 <= k < nonce ==> !qualifies(self.spec_block(), self.spec_bits(), k),
                self.spec_bits() == 0 ==> nonce == 0,
            decreases MAX_NONCE - nonce,
        {
            let data = self.prepare_data(nonce);
            let hash = sha256_digest(data.as_slice());
            let mut padded: Vec<u8> = Vec::new();
            padded.push(0u8);
            push_bytes(&mut padded, hash.as_slice());
            proof {
                let mid: Seq<u8> = seq![0u8];
                assert(padded@ =~= mid + hash@);
                lemma_be_value_append(mid, hash@);
                assert(mid.drop_last() =~= Seq::<u8>::empty());
                assert(be_value(mid) == be_value(mid.drop_last()) * 256 + (mid.last() as nat));
                assert(be_value(Seq::<u8>::empty()) == 0);
                assert(mid.last() == 0u8);
                assert(be_value(mid) == 0);
                assert(be_value(mid + hash@) == be_value(mid) * pow2(8 * hash@.len()) + be_value(
                    hash@,
                ));
                assert(be_value(padded@) == be_value(hash@));
                lemma_be_value_bound(hash@);
                if self.spec_bits() == 0 {
                    assert(be_value(hash@) < pow2(256));
                }
            }
            if be_less(padded.as_slice(), self.target.as_slice()) {
                let hex = hex_encode(hash.as_slice());
                return Ok((nonce, hex));
            }
            nonce = nonce + 1;
        }
        Err(BlockError::MiningExhausted)
    }
}

} // verus!
