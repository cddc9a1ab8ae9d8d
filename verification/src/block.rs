//! The block data structure: construction by mining, transaction hashing,
//! and read-only accessors. The binary codec lives in `codec`.
use crate::big_endian::{
    be_value, lemma_u64_be_injective, lemma_u64_be_props, u64_be, u64_to_be_bytes,
};
use crate::codec::{
    encodes_some, len_prefixed, lemma_peel, lemma_splice, lemma_txs_encode_min_len,
    lemma_txs_encode_snoc, parse_lp_bytes, parse_lp_string, parse_u64, spec_encode, tail_end,
    tail_hash, tail_pre, tail_txs, txs_encode, wf_model,
};
use crate::errors::BlockError;
use crate::proof_of_work::{
    i64_bits, i64_wrap, lemma_i64_wrap_injective, mined, mining_exhausted, u64_to_i64_bits,
    ProofOfWork, MAX_NONCE, TARGET_BITS,
};
use crate::transaction::Transaction;
use crate::utils::{current_timestamp, push_bytes, sha256_digest, sha256_of};
use vstd::arithmetic::power2::pow2;
use vstd::prelude::*;
use vstd::utf8::{encode_utf8, encode_utf8_decode_utf8, encode_utf8_valid_utf8};

verus! {

/// The mathematical content of a block: every field as a plain value.
#[verifier::ext_equal]
pub ghost struct BlockModel {
    pub timestamp: i64,
    pub pre_block_hash: Seq<char>,
    pub hash: Seq<char>,
    pub transactions: Seq<Seq<u8>>,
    pub nonce: i64,
    pub height: usize,
}

/// The identifier sequences of a sequence of transactions.
pub open spec fn tx_views(txs: Seq<Transaction>) -> Seq<Seq<u8>> {
    Seq::new(txs.len(), |i: int| txs[i]@)
}

/// The identifier bytes of all transactions, concatenated in list order.
pub open spec fn ids_concat(ids: Seq<Seq<u8>>) -> Seq<u8>
    decreases ids.len(),
{
    if ids.len() == 0 {
        Seq::empty()
    } else {
        ids_concat(ids.drop_last()) + ids.last()
    }
}

/// Where transaction `i`'s identifier starts inside the concatenation.
pub open spec fn ids_offset(ids: Seq<Seq<u8>>, i: int) -> int {
    ids_concat(ids.take(i)).len() as int
}

pub proof fn lemma_ids_concat_index(ids: Seq<Seq<u8>>, i: int, k: int)
    requires
        0 <= i < ids.len(),
        0 <= k < ids[i].len(),
    ensures
        ids_offset(ids, i) + k < ids_concat(ids).len(),
        ids_concat(ids)[ids_offset(ids, i) + k] == ids[i][k],
    decreases ids.len(),
{
    let last = ids.len() - 1;
    if i == last {
        assert(ids.take(i) =~= ids.drop_last());
        assert(ids_concat(ids) == ids_concat(ids.drop_last()) + ids.last());
    } else {
        let dl = ids.drop_last();
        assert(dl.take(i) =~= ids.take(i));
        assert(dl[i] == ids[i]);
        lemma_ids_concat_index(dl, i, k);
        assert(ids_concat(ids) == ids_concat(dl) + ids.last());
        assert(ids_concat(ids)[ids_offset(ids, i) + k] == ids_concat(dl)[ids_offset(dl, i) + k]);
    }
}

/// The flat transaction hash is order-sensitive: swapping two distinct,
/// equally long identifiers changes the byte string that the transaction
/// hash is taken over. The digests themselves then differ unless SHA-256
/// collides, which nothing can state of an uninterpreted digest. Equal
/// lengths are required because for unequal lengths even the concatenation
/// can coincide: identifiers `ab` and `abab` swap to the same bytes.
pub proof fn lemma_ids_concat_order_sensitive(ids: Seq<Seq<u8>>, i: int, j: int)
    requires
        0 <= i < j < ids.len(),
        ids[i].len() == ids[j].len(),
        ids[i] != ids[j],
    ensures
        ids_concat(ids) != ids_concat(ids.update(i, ids[j]).update(j, ids[i])),
{
    let swapped = ids.update(i, ids[j]).update(j, ids[i]);
    let k: int = choose|k: int| 0 <= k < ids[i].len() && ids[i][k] != ids[j][k];
    assert(exists|k: int| 0 <= k < ids[i].len() && ids[i][k] != ids[j][k]) by {
        if forall|k: int| 0 <= k < ids[i].len() ==> ids[i][k] == ids[j][k] {
            assert(ids[i] =~= ids[j]);
        }
    }
    assert(swapped.take(i) =~= ids.take(i));
    assert(ids_offset(swapped, i) == ids_offset(ids, i));
    lemma_ids_concat_index(ids, i, k);
    assert(swapped[i] == ids[j]);
    lemma_ids_concat_index(swapped, i, k);
    assert(ids_concat(swapped)[ids_offset(ids, i) + k] == ids[j][k]);
    assert(ids_concat(ids)[ids_offset(ids, i) + k] == ids[i][k]);
}

/// The header fields that the mining input depends on, as a model: used to
/// name the block skeleton a failed search was run over.
pub open spec fn header_model(
    pre_block_hash: Seq<char>,
    transactions: Seq<Seq<u8>>,
    timestamp: i64,
) -> BlockModel {
    BlockModel {
        timestamp,
        pre_block_hash,
        hash: Seq::empty(),
        transactions,
        nonce: 0,
        height: 0,
    }
}

/// A block of the chain: linkage metadata, a transaction list, and the
/// nonce and hash found by mining.
pub struct Block {
    timestamp: i64,
    pre_block_hash: String,
    hash: String,
    transactions: Vec<Transaction>,
    nonce: i64,
    height: usize,
}

impl View for Block {
    type V = BlockModel;

    closed spec fn view(&self) -> BlockModel {
        BlockModel {
            timestamp: self.timestamp,
            pre_block_hash: self.pre_block_hash@,
            hash: self.hash@,
            transactions: tx_views(self.transactions@),
            nonce: self.nonce,
            height: self.height,
        }
    }
}

impl Clone for Block {
    fn clone(&self) -> (b: Self)
        ensures
            b@ == self@,
    {
        let b = Block {
            timestamp: self.timestamp,
            pre_block_hash: self.pre_block_hash.clone(),
            hash: self.hash.clone(),
            transactions: clone_transactions(&self.transactions),
            nonce: self.nonce,
            height: self.height,
        };
        proof {
            assert(b@.transactions =~= self@.transactions);
        }
        b
    }
}

/// Clones a transaction list element by element.
fn clone_transactions(txs: &[Transaction]) -> (r: Vec<Transaction>)
    ensures
        tx_views(r@) == tx_views(txs@),
{
    let mut r: Vec<Transaction> = Vec::new();
    let n = txs.len();
    let mut i: usize = 0;
    while i < n
        invariant
            i <= n,
            n == txs@.len(),
            r@.len() == i,
            forall|j: int| 0 <= j < i ==> r@[j]@ == txs@[j]@,
        decreases n - i,
    {
        r.push(txs[i].clone());
        i += 1;
    }
    proof {
        assert(tx_views(r@) =~= tx_views(txs@));
    }
    r
}

impl Block {
    /// Builds the block skeleton, stamps it with the current time, and mines
    /// it to completion: the returned block carries the first qualifying
    /// nonce and the lowercase-hex hash of its mining input.
    pub fn new_block(pre_block_hash: String, transactions: &[Transaction], height: usize) -> (r:
        Result<Block, BlockError>)
        ensures
            r matches Ok(b) ==> {
                &&& b@.pre_block_hash == pre_block_hash@
                &&& b@.transactions == tx_views(transactions@)
                &&& b@.height == height
                &&& b@.timestamp >= 0
                &&& mined(b@, TARGET_BITS)
                &&& b@.hash.len() == 64
            },
            r matches Err(e) ==> {
                ||| e == BlockError::ClockError
                ||| (e == BlockError::MiningExhausted && (exists|ts: i64|
                    ts >= 0 && mining_exhausted(
                        header_model(pre_block_hash@, tx_views(transactions@), ts),
                        TARGET_BITS,
                    )))
            },
    {
        let timestamp = match current_timestamp() {
            Ok(t) => t,
            Err(e) => { return Err(e) },
        };
        let mut block = Block {
            timestamp,
            pre_block_hash,
            hash: String::new(),
            transactions: clone_transactions(transactions),
            nonce: 0,
            height,
        };
        let pow = ProofOfWork::new_proof_of_work(block.clone());
        match pow.run() {
            Ok((nonce, hash)) => {
                block.nonce = nonce;
                block.hash = hash;
                proof {
                    let m0 = pow.spec_block();
                    assert(crate::proof_of_work::pow_input(block@, TARGET_BITS, nonce)
                        == crate::proof_of_work::pow_input(m0, TARGET_BITS, nonce));
                    assert forall|k: i64| 0 <= k < nonce implies !crate::proof_of_work::qualifies(
                        block@,
                        TARGET_BITS,
                        k,
                    ) by {
                        assert(!crate::proof_of_work::qualifies(m0, TARGET_BITS, k));
                        assert(crate::proof_of_work::pow_input(block@, TARGET_BITS, k)
                            == crate::proof_of_work::pow_input(m0, TARGET_BITS, k));
                    };
                }
                Ok(block)
            },
            Err(e) => {
                proof {
                    let m0 = pow.spec_block();
                    let hm = header_model(pre_block_hash@, tx_views(transactions@), timestamp);
                    assert forall|k: i64|
                        0 <= k < MAX_NONCE implies !crate::proof_of_work::qualifies(
                        hm,
                        TARGET_BITS,
                        k,
                    ) by {
                        assert(!crate::proof_of_work::qualifies(m0, TARGET_BITS, k));
                        assert(crate::proof_of_work::pow_input(hm, TARGET_BITS, k)
                            == crate::proof_of_work::pow_input(m0, TARGET_BITS, k));
                    };
                    assert(mining_exhausted(hm, TARGET_BITS));
                    assert(timestamp >= 0);
                }
                Err(e)
            },
        }
    }

    /// Builds the genesis block: previous hash `"None"`, height 0, and a
    /// single-element transaction list.
    pub fn generate_genesis_block(transaction: &Transaction) -> (r: Result<Block, BlockError>)
        ensures
            r matches Ok(b) ==> {
                &&& b@.pre_block_hash == "None"@
                &&& b@.transactions == seq![transaction@]
                &&& b@.height == 0
                &&& b@.timestamp >= 0
                &&& mined(b@, TARGET_BITS)
                &&& b@.hash.len() == 64
            },
            r matches Err(e) ==> {
                ||| e == BlockError::ClockError
                ||| (e == BlockError::MiningExhausted && (exists|ts: i64|
                    ts >= 0 && mining_exhausted(
                        header_model("None"@, seq![transaction@], ts),
                        TARGET_BITS,
                    )))
            },
    {
        let mut transactions: Vec<Transaction> = Vec::new();
        transactions.push(transaction.clone());
        proof {
            assert(tx_views(transactions@) =~= seq![transaction@]);
        }
        let none_str: String = "None".to_owned();
        let ghost pre_v: Seq<char> = none_str@;
        let r = Block::new_block(none_str, &transactions, 0);
        proof {
            if r matches Err(e) && e == BlockError::MiningExhausted {
                let ts = choose|ts: i64|
                    ts >= 0 && mining_exhausted(
                        header_model(pre_v, tx_views(transactions@), ts),
                        TARGET_BITS,
                    );
                assert(header_model(pre_v, tx_views(transactions@), ts) == header_model(
                    "None"@,
                    seq![transaction@],
                    ts,
                ));
                assert(ts >= 0 && mining_exhausted(
                    header_model("None"@, seq![transaction@], ts),
                    TARGET_BITS,
                ));
            }
        }
        r
    }

    /// The SHA-256 digest of the transaction identifiers concatenated in list
    /// order. A flat hash, not a Merkle tree: reordering distinct
    /// transactions changes the input bytes.
    pub fn hash_transactions(&self) -> (r: Vec<u8>)
        ensures
            r@ == sha256_of(ids_concat(self@.transactions)),
            r@.len() == 32,
    {
        let mut txhashs: Vec<u8> = Vec::new();
        let n = self.transactions.len();
        let mut i: usize = 0;
        while i < n
            invariant
                i <= n,
                n == self.transactions@.len(),
                self@.transactions == tx_views(self.transactions@),
                txhashs@ == ids_concat(self@.transactions.take(i as int)),
            decreases n - i,
        {
            push_bytes(&mut txhashs, self.transactions[i].get_id().as_slice());
            proof {
                let txs = self@.transactions;
                assert(txs.take(i as int + 1).drop_last() =~= txs.take(i as int));
                assert(txs.take(i as int + 1).last() == txs[i as int]);
            }
            i += 1;
        }
        proof {
            assert(self@.transactions.take(n as int) =~= self@.transactions);
        }
        sha256_digest(txhashs.as_slice())
    }

    /// Writes the block in its fixed-schema binary form: timestamp, previous
    /// hash, hash, transaction count, transactions, nonce and height, in that
    /// order, with every integer and length 8 bytes big-endian.
    pub fn serialize(&self) -> (r: Vec<u8>)
        ensures
            r@ == spec_encode(self@),
            wf_model(self@),
    {
        proof {
            vstd::arithmetic::power2::lemma2_to64();
            vstd::arithmetic::power2::lemma2_to64_rest();
        }
        let mut out: Vec<u8> = Vec::new();
        let ts_b = u64_to_be_bytes(i64_bits(self.timestamp));
        push_bytes(&mut out, ts_b.as_slice());
        let pb = self.pre_block_hash.as_str().as_bytes();
        let pb_len_b = u64_to_be_bytes(pb.len() as u64);
        push_bytes(&mut out, pb_len_b.as_slice());
        push_bytes(&mut out, pb);
        let hb = self.hash.as_str().as_bytes();
        let hb_len_b = u64_to_be_bytes(hb.len() as u64);
        push_bytes(&mut out, hb_len_b.as_slice());
        push_bytes(&mut out, hb);
        let n = self.transactions.len();
        let cnt_b = u64_to_be_bytes(n as u64);
        push_bytes(&mut out, cnt_b.as_slice());
        let ghost head: Seq<u8> = out@;
        let mut i: usize = 0;
        proof {
            assert(self@.transactions.take(0) =~= Seq::<Seq<u8>>::empty());
            assert(out@ =~= head + txs_encode(self@.transactions.take(0)));
        }
        while i < n
            invariant
                i <= n,
                n == self.transactions@.len(),
                self@.transactions == tx_views(self.transactions@),
                out@ == head + txs_encode(self@.transactions.take(i as int)),
                forall|j: int| 0 <= j < i ==> self@.transactions[j].len() < pow2(64),
            decreases n - i,
        {
            let id = self.transactions[i].get_id();
            let id_len_b = u64_to_be_bytes(id.len() as u64);
            push_bytes(&mut out, id_len_b.as_slice());
            push_bytes(&mut out, id.as_slice());
            proof {
                vstd::arithmetic::power2::lemma2_to64();
                vstd::arithmetic::power2::lemma2_to64_rest();
                let txs = self@.transactions;
                assert(txs.take(i as int + 1) =~= txs.take(i as int).push(txs[i as int]));
                lemma_txs_encode_snoc(txs.take(i as int), txs[i as int]);
                assert(id@ == txs[i as int]);
                assert(out@ =~= head + txs_encode(txs.take(i as int + 1)));
            }
            i += 1;
        }
        proof {
            assert(self@.transactions.take(n as int) =~= self@.transactions);
        }
        let nonce_b = u64_to_be_bytes(i64_bits(self.nonce));
        push_bytes(&mut out, nonce_b.as_slice());
        let height_b = u64_to_be_bytes(self.height as u64);
        push_bytes(&mut out, height_b.as_slice());
        proof {
            assert(out@ =~= spec_encode(self@));
        }
        out
    }

    /// Reads a block back from its fixed-schema binary form. Returns
    /// `DecodeError` on truncated input, a length prefix past the end,
    /// invalid UTF-8 in a string field, a height outside `usize`, or
    /// trailing bytes; every well-formed encoding is accepted.
    #[verifier::rlimit(100)]
    pub fn deserialize(bytes: &[u8]) -> (r: Result<Block, BlockError>)
        ensures
            r matches Ok(b) ==> wf_model(b@) && spec_encode(b@) == bytes@,
            r matches Err(e) ==> e == BlockError::DecodeError,
            encodes_some(bytes@) ==> r is Ok,
    {
        let slen = bytes.len();
        let ghost can = encodes_some(bytes@);
        let ghost wm: BlockModel = if can {
            choose|m: BlockModel| wf_model(m) && spec_encode(m) == bytes@
        } else {
            arbitrary()
        };
        proof {
            vstd::arithmetic::power2::lemma2_to64();
            vstd::arithmetic::power2::lemma2_to64_rest();
            if can {
                lemma_u64_be_props(i64_wrap(wm.timestamp));
                assert(bytes@.subrange(0, slen as int) =~= bytes@);
                lemma_peel(bytes@, 0, u64_be(i64_wrap(wm.timestamp)), tail_pre(wm));
            }
        }
        let (ts_u, p1) = match parse_u64(bytes, 0) {
            Some(p) => p,
            None => {
                proof {
                    if can {
                        assert(false);
                    }
                }
                return Err(BlockError::DecodeError);
            },
        };
        let timestamp = u64_to_i64_bits(ts_u);
        proof {
            if can {
                assert(bytes@.subrange(0, 8) == u64_be(ts_u));
                lemma_u64_be_injective(ts_u, i64_wrap(wm.timestamp));
                lemma_i64_wrap_injective(timestamp, wm.timestamp);
            }
        }
        // previous-hash string
        let ghost pre_wm: Seq<u8> = encode_utf8(wm.pre_block_hash);
        proof {
            if can {
                lemma_u64_be_props(pre_wm.len() as u64);
                assert(tail_pre(wm) =~= u64_be(pre_wm.len() as u64) + (pre_wm + tail_hash(wm)));
                lemma_peel(bytes@, p1 as int, u64_be(pre_wm.len() as u64), pre_wm + tail_hash(wm));
                lemma_peel(bytes@, p1 as int + 8, pre_wm, tail_hash(wm));
                encode_utf8_valid_utf8(wm.pre_block_hash);
            }
        }
        let (pre_str, p2) = match parse_lp_string(bytes, p1) {
            Some(p) => p,
            None => {
                proof {
                    if can {
                        assert(false);
                    }
                }
                return Err(BlockError::DecodeError);
            },
        };
        proof {
            if can {
                lemma_u64_be_props(encode_utf8(pre_str@).len() as u64);
                lemma_u64_be_injective(
                    encode_utf8(pre_str@).len() as u64,
                    pre_wm.len() as u64,
                );
                assert(encode_utf8(pre_str@).len() == pre_wm.len());
                assert(p2 as int == p1 + 8 + pre_wm.len());
                assert(encode_utf8(pre_str@) == pre_wm);
                encode_utf8_decode_utf8(pre_str@);
                encode_utf8_decode_utf8(wm.pre_block_hash);
                assert(pre_str@ == wm.pre_block_hash);
            }
        }
        // block-hash string
        let ghost hash_wm: Seq<u8> = encode_utf8(wm.hash);
        proof {
            if can {
                lemma_u64_be_props(hash_wm.len() as u64);
                assert(tail_hash(wm) =~= u64_be(hash_wm.len() as u64) + (hash_wm + tail_txs(wm)));
                lemma_peel(bytes@, p2 as int, u64_be(hash_wm.len() as u64), hash_wm + tail_txs(wm));
                lemma_peel(bytes@, p2 as int + 8, hash_wm, tail_txs(wm));
                encode_utf8_valid_utf8(wm.hash);
            }
        }
        let (hash_str, p3) = match parse_lp_string(bytes, p2) {
            Some(p) => p,
            None => {
                proof {
                    if can {
                        assert(false);
                    }
                }
                return Err(BlockError::DecodeError);
            },
        };
        proof {
            if can {
                lemma_u64_be_props(encode_utf8(hash_str@).len() as u64);
                lemma_u64_be_injective(
                    encode_utf8(hash_str@).len() as u64,
                    hash_wm.len() as u64,
                );
                assert(encode_utf8(hash_str@).len() == hash_wm.len());
                assert(p3 as int == p2 + 8 + hash_wm.len());
                assert(encode_utf8(hash_str@) == hash_wm);
                encode_utf8_decode_utf8(hash_str@);
                encode_utf8_decode_utf8(wm.hash);
                assert(hash_str@ == wm.hash);
            }
        }
        // transaction count
        proof {
            if can {
                lemma_u64_be_props(wm.transactions.len() as u64);
                lemma_peel(
                    bytes@,
                    p3 as int,
                    u64_be(wm.transactions.len() as u64),
                    txs_encode(wm.transactions) + tail_end(wm),
                );
            }
        }
        let (cnt_u, p4) = match parse_u64(bytes, p3) {
            Some(p) => p,
            None => {
                proof {
                    if can {
                        assert(false);
                    }
                }
                return Err(BlockError::DecodeError);
            },
        };
        proof {
            if can {
                lemma_u64_be_injective(cnt_u, wm.transactions.len() as u64);
                assert(cnt_u as nat == wm.transactions.len());
            }
        }
        let rem = slen - p4;
        let rem_div: u64 = (rem / 8) as u64;
        if rem_div < cnt_u {
            proof {
                if can {
                    lemma_txs_encode_min_len(wm.transactions);
                    let c = wm.transactions.len() as int;
                    vstd::arithmetic::div_mod::lemma_div_multiples_vanish(c, 8);
                    vstd::arithmetic::div_mod::lemma_div_is_ordered(8 * c, rem as int, 8);
                    assert(false);
                }
            }
            return Err(BlockError::DecodeError);
        }
        let cnt = cnt_u as usize;
        proof {
            assert(cnt as u64 == cnt_u);
        }
        let mut txs: Vec<Transaction> = Vec::new();
        let mut pos = p4;
        let mut ti: usize = 0;
        proof {
            assert(bytes@.subrange(p4 as int, p4 as int) =~= txs_encode(tx_views(txs@)));
            if can {
                assert(wm.transactions.skip(0) =~= wm.transactions);
                assert(tx_views(txs@) =~= wm.transactions.take(0));
            }
        }
        while ti < cnt
            invariant
                ti <= cnt,
                txs@.len() == ti,
                slen == bytes@.len(),
                p4 <= pos <= slen,
                bytes@.subrange(p4 as int, pos as int) == txs_encode(tx_views(txs@)),
                forall|j: int| 0 <= j < ti ==> tx_views(txs@)[j].len() < pow2(64),
                can == encodes_some(bytes@),
                can ==> {
                    &&& wf_model(wm)
                    &&& spec_encode(wm) == bytes@
                    &&& cnt as nat == wm.transactions.len()
                    &&& tx_views(txs@) == wm.transactions.take(ti as int)
                    &&& bytes@.subrange(pos as int, slen as int) == txs_encode(
                        wm.transactions.skip(ti as int),
                    ) + tail_end(wm)
                },
            decreases cnt - ti,
        {
            proof {
                vstd::arithmetic::power2::lemma2_to64();
                vstd::arithmetic::power2::lemma2_to64_rest();
                if can {
                    let sk = wm.transactions.skip(ti as int);
                    assert(sk.len() > 0);
                    assert(sk[0] == wm.transactions[ti as int]);
                    assert(txs_encode(sk) == len_prefixed(sk[0]) + txs_encode(sk.drop_first()));
                    let rest1 = txs_encode(sk.drop_first()) + tail_end(wm);
                    assert((len_prefixed(sk[0]) + txs_encode(sk.drop_first())) + tail_end(wm)
                        =~= len_prefixed(sk[0]) + rest1);
                    lemma_peel(bytes@, pos as int, len_prefixed(sk[0]), rest1);
                    lemma_u64_be_props(sk[0].len() as u64);
                    assert(len_prefixed(sk[0]) + rest1 =~= u64_be(sk[0].len() as u64) + (sk[0]
                        + rest1));
                    lemma_peel(bytes@, pos as int, u64_be(sk[0].len() as u64), sk[0] + rest1);
                    lemma_peel(bytes@, pos as int + 8, sk[0], rest1);
                    assert(wm.transactions[ti as int].len() < pow2(64));
                    assert(be_value(bytes@.subrange(pos as int, pos as int + 8)) == sk[0].len());
                    assert(pos + 8 + sk[0].len() <= slen);
                }
            }
            let (id_bytes, npos) = match parse_lp_bytes(bytes, pos) {
                Some(p) => p,
                None => {
                    proof {
                        if can {
                            assert(false);
                        }
                    }
                    return Err(BlockError::DecodeError);
                },
            };
            let ghost id_seq: Seq<u8> = id_bytes@;
            let ghost prev: Seq<Seq<u8>> = tx_views(txs@);
            txs.push(Transaction::new(id_bytes));
            proof {
                assert(tx_views(txs@) =~= prev.push(id_seq));
                lemma_txs_encode_snoc(prev, id_seq);
                lemma_splice(bytes@, p4 as int, pos as int, npos as int);
                if can {
                    let sk = wm.transactions.skip(ti as int);
                    lemma_u64_be_props(id_seq.len() as u64);
                    lemma_u64_be_injective(id_seq.len() as u64, sk[0].len() as u64);
                    assert(id_seq.len() == sk[0].len());
                    assert(npos as int == pos + 8 + sk[0].len());
                    assert(id_seq == sk[0]);
                    assert(wm.transactions.take(ti as int + 1) =~= wm.transactions.take(
                        ti as int,
                    ).push(wm.transactions[ti as int]));
                    assert(sk.drop_first() =~= wm.transactions.skip(ti as int + 1));
                }
            }
            pos = npos;
            ti += 1;
        }
        proof {
            if can {
                assert(wm.transactions.take(cnt as int) =~= wm.transactions);
                assert(wm.transactions.skip(cnt as int) =~= Seq::<Seq<u8>>::empty());
                assert(txs_encode(Seq::<Seq<u8>>::empty()) == Seq::<u8>::empty());
                assert(Seq::<u8>::empty() + tail_end(wm) =~= tail_end(wm));
                lemma_u64_be_props(i64_wrap(wm.nonce));
                assert(tail_end(wm) == u64_be(i64_wrap(wm.nonce)) + u64_be(wm.height as u64));
                lemma_peel(bytes@, pos as int, u64_be(i64_wrap(wm.nonce)), u64_be(wm.height as u64));
            }
        }
        let ghost p5 = pos as int;
        let (nonce_u, p6) = match parse_u64(bytes, pos) {
            Some(p) => p,
            None => {
                proof {
                    if can {
                        assert(false);
                    }
                }
                return Err(BlockError::DecodeError);
            },
        };
        let nonce = u64_to_i64_bits(nonce_u);
        proof {
            if can {
                lemma_u64_be_injective(nonce_u, i64_wrap(wm.nonce));
                lemma_i64_wrap_injective(nonce, wm.nonce);
                lemma_u64_be_props(wm.height as u64);
                assert(u64_be(wm.height as u64) =~= u64_be(wm.height as u64) + Seq::<u8>::empty());
                lemma_peel(bytes@, p6 as int, u64_be(wm.height as u64), Seq::<u8>::empty());
            }
        }
        let (height_u, p7) = match parse_u64(bytes, p6) {
            Some(p) => p,
            None => {
                proof {
                    if can {
                        assert(false);
                    }
                }
                return Err(BlockError::DecodeError);
            },
        };
        proof {
            if can {
                lemma_u64_be_injective(height_u, wm.height as u64);
            }
        }
        if height_u > usize::MAX as u64 {
            proof {
                if can {
                    assert(false);
                }
            }
            return Err(BlockError::DecodeError);
        }
        let height = height_u as usize;
        proof {
            assert(height as u64 == height_u);
        }
        if p7 != slen {
            proof {
                if can {
                    assert(false);
                }
            }
            return Err(BlockError::DecodeError);
        }
        let b = Block {
            timestamp,
            pre_block_hash: pre_str,
            hash: hash_str,
            transactions: txs,
            nonce,
            height,
        };
        proof {
            let bv = bytes@;
            let s1 = bv.subrange(0, 8);
            let s2 = bv.subrange(8, p2 as int);
            let s3 = bv.subrange(p2 as int, p3 as int);
            let s4 = bv.subrange(p3 as int, p4 as int);
            let s5 = bv.subrange(p4 as int, p5);
            let s6 = bv.subrange(p5, p6 as int);
            let s7 = bv.subrange(p6 as int, p7 as int);
            let t3 = s6 + s7;
            let t2 = s5 + t3;
            let t1 = s4 + t2;
            let t0 = s3 + t1;
            let tp = s2 + t0;
            assert(bv =~= s1 + tp);
            assert(s1 == u64_be(i64_wrap(b@.timestamp)));
            assert(s2 == len_prefixed(encode_utf8(b@.pre_block_hash)));
            assert(s3 == len_prefixed(encode_utf8(b@.hash)));
            assert(b@.transactions =~= tx_views(txs@));
            assert(b@.transactions.len() as u64 == cnt_u);
            assert(s4 == u64_be(b@.transactions.len() as u64));
            assert(s5 == txs_encode(b@.transactions));
            assert(s6 == u64_be(i64_wrap(b@.nonce)));
            assert(s7 == u64_be(b@.height as u64));
            assert(tail_end(b@) == t3);
            assert(tail_txs(b@) == t1);
            assert(tail_hash(b@) == t0);
            assert(tail_pre(b@) == tp);
            assert(spec_encode(b@) == s1 + tp);
            assert(spec_encode(b@) == bytes@);
            assert(wf_model(b@));
        }
        Ok(b)
    }

    /// The transactions contained in the block.
    pub fn get_transactions(&self) -> (r: &[Transaction])
        ensures
            tx_views(r@) == self@.transactions,
    {
        self.transactions.as_slice()
    }

    /// The previous block's hash.
    pub fn get_pre_block_hash(&self) -> (r: String)
        ensures
            r@ == self@.pre_block_hash,
    {
        self.pre_block_hash.clone()
    }

    /// The block's hash, as lowercase hex.
    pub fn get_hash(&self) -> (r: &str)
        ensures
            r@ == self@.hash,
    {
        self.hash.as_str()
    }

    /// The UTF-8 bytes of the block's hash string.
    pub fn get_hash_bytes(&self) -> (r: Vec<u8>)
        ensures
            r@ == vstd::utf8::encode_utf8(self@.hash),
    {
        vstd::slice::slice_to_vec(self.hash.as_str().as_bytes())
    }

    /// The block's timestamp, in milliseconds since the epoch.
    pub fn get_timestamp(&self) -> (r: i64)
        ensures
            r == self@.timestamp,
    {
        self.timestamp
    }

    /// The block's height in the chain.
    pub fn get_height(&self) -> (r: usize)
        ensures
            r == self@.height,
    {
        self.height
    }
}

} // verus!
