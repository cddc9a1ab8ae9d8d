//! The fixed-schema binary encoding of a block, and the verified helpers the
//! parser is built from. Every field appears in a stable order; strings and
//! transaction identifiers carry an 8-byte big-endian length prefix.
use crate::big_endian::{
    be_value, lemma_be_value_injective, lemma_u64_be_injective, lemma_u64_be_props, read_be_u64,
    u64_be,
};
use crate::block::BlockModel;
use crate::proof_of_work::i64_wrap;
use crate::utils::copy_range;
use vstd::arithmetic::power2::pow2;
use vstd::prelude::*;
use vstd::utf8::{encode_utf8, valid_utf8};

verus! {

/// A byte string preceded by its 8-byte big-endian length.
pub open spec fn len_prefixed(s: Seq<u8>) -> Seq<u8> {
    u64_be(s.len() as u64) + s
}

/// The transaction identifiers, each length-prefixed, in list order.
pub open spec fn txs_encode(txs: Seq<Seq<u8>>) -> Seq<u8>
    decreases txs.len(),
{
    if txs.len() == 0 {
        Seq::empty()
    } else {
        len_prefixed(txs[0]) + txs_encode(txs.drop_first())
    }
}

/// The encoding from the nonce on: nonce and height, each 8 bytes.
pub open spec fn tail_end(m: BlockModel) -> Seq<u8> {
    u64_be(i64_wrap(m.nonce)) + u64_be(m.height as u64)
}

/// The encoding from the transaction count on.
pub open spec fn tail_txs(m: BlockModel) -> Seq<u8> {
    u64_be(m.transactions.len() as u64) + (txs_encode(m.transactions) + tail_end(m))
}

/// The encoding from the block-hash string on.
pub open spec fn tail_hash(m: BlockModel) -> Seq<u8> {
    len_prefixed(encode_utf8(m.hash)) + tail_txs(m)
}

/// The encoding from the previous-hash string on.
pub open spec fn tail_pre(m: BlockModel) -> Seq<u8> {
    len_prefixed(encode_utf8(m.pre_block_hash)) + tail_hash(m)
}

/// The full encoding of a block: timestamp, previous hash, hash,
/// transaction count, transactions, nonce, height.
pub open spec fn spec_encode(m: BlockModel) -> Seq<u8> {
    u64_be(i64_wrap(m.timestamp)) + tail_pre(m)
}

/// The lengths an encodable block must respect so that each length prefix
/// really holds the field's length.
pub open spec fn wf_model(m: BlockModel) -> bool {
    &&& encode_utf8(m.pre_block_hash).len() < pow2(64)
    &&& encode_utf8(m.hash).len() < pow2(64)
    &&& m.transactions.len() < pow2(64)
    &&& (forall|i: int| 0 <= i < m.transactions.len() ==> m.transactions[i].len() < pow2(64))
}

/// Whether some well-formed block encodes to exactly these bytes.
pub open spec fn encodes_some(bytes: Seq<u8>) -> bool {
    exists|m: BlockModel| wf_model(m) && spec_encode(m) == bytes
}

pub proof fn lemma_txs_encode_snoc(txs: Seq<Seq<u8>>, t: Seq<u8>)
    ensures
        txs_encode(txs.push(t)) == txs_encode(txs) + len_prefixed(t),
    decreases txs.len(),
{
    if txs.len() == 0 {
        assert(txs.push(t)[0] == t);
        assert(txs.push(t).drop_first() =~= Seq::<Seq<u8>>::empty());
        assert(txs_encode(txs.push(t)) == len_prefixed(t) + txs_encode(
            Seq::<Seq<u8>>::empty(),
        ));
        assert(txs_encode(Seq::<Seq<u8>>::empty()) == Seq::<u8>::empty());
        assert(txs_encode(txs) == Seq::<u8>::empty());
        assert(len_prefixed(t) + Seq::<u8>::empty() =~= Seq::<u8>::empty() + len_prefixed(t));
    } else {
        assert(txs.push(t)[0] == txs[0]);
        assert(txs.push(t).drop_first() =~= txs.drop_first().push(t));
        lemma_txs_encode_snoc(txs.drop_first(), t);
        assert(txs_encode(txs.push(t)) == len_prefixed(txs[0]) + (txs_encode(txs.drop_first())
            + len_prefixed(t)));
        assert(len_prefixed(txs[0]) + (txs_encode(txs.drop_first()) + len_prefixed(t)) =~= (
        len_prefixed(txs[0]) + txs_encode(txs.drop_first())) + len_prefixed(t));
    }
}

/// Every encoded transaction takes at least its 8-byte length prefix.
pub proof fn lemma_txs_encode_min_len(txs: Seq<Seq<u8>>)
    requires
        forall|i: int| 0 <= i < txs.len() ==> txs[i].len() < pow2(64),
    ensures
        txs_encode(txs).len() >= 8 * txs.len(),
    decreases txs.len(),
{
    if txs.len() > 0 {
        lemma_u64_be_props(txs[0].len() as u64);
        assert(forall|i: int|
            0 <= i < txs.drop_first().len() ==> txs.drop_first()[i].len() < pow2(64));
        lemma_txs_encode_min_len(txs.drop_first());
    }
}

/// Splits a known concatenation at the cursor: the piece just parsed and
/// what remains after it.
pub proof fn lemma_peel(bytes: Seq<u8>, pos: int, a: Seq<u8>, rest: Seq<u8>)
    requires
        0 <= pos <= bytes.len(),
        bytes.subrange(pos, bytes.len() as int) == a + rest,
    ensures
        pos + a.len() + rest.len() == bytes.len(),
        bytes.subrange(pos, pos + a.len()) == a,
        bytes.subrange(pos + a.len(), bytes.len() as int) == rest,
{
    let sub = bytes.subrange(pos, bytes.len() as int);
    assert(sub.len() == a.len() + rest.len());
    assert forall|i: int| 0 <= i < a.len() implies bytes[pos + i] == a[i] by {
        assert(sub[i] == (a + rest)[i]);
    };
    assert forall|j: int| 0 <= j < rest.len() implies bytes[pos + a.len() + j] == rest[j] by {
        assert(sub[a.len() + j] == (a + rest)[a.len() + j]);
    };
    assert(bytes.subrange(pos, pos + a.len() as int) =~= a);
    assert(bytes.subrange(pos + a.len() as int, bytes.len() as int) =~= rest);
}

/// Two equal concatenations with equally long first parts have equal parts.
pub proof fn lemma_append_inj(a1: Seq<u8>, b1: Seq<u8>, a2: Seq<u8>, b2: Seq<u8>)
    requires
        a1 + b1 == a2 + b2,
        a1.len() == a2.len(),
    ensures
        a1 == a2,
        b1 == b2,
{
    assert((a1 + b1).len() == a1.len() + b1.len());
    assert((a2 + b2).len() == a2.len() + b2.len());
    assert(b1.len() == b2.len());
    assert forall|i: int| 0 <= i < a1.len() implies a1[i] == a2[i] by {
        assert((a1 + b1)[i] == a1[i]);
        assert((a2 + b2)[i] == a2[i]);
        assert((a1 + b1)[i] == (a2 + b2)[i]);
    };
    assert forall|j: int| 0 <= j < b1.len() implies b1[j] == b2[j] by {
        assert((a1 + b1)[a1.len() + j] == b1[j]);
        assert((a2 + b2)[a2.len() + j] == b2[j]);
        assert((a1 + b1)[a1.len() + j] == (a2 + b2)[a1.len() + j]);
    };
    assert(a1 =~= a2);
    assert(b1 =~= b2);
}

/// Joins two adjacent subranges of the same byte string.
pub proof fn lemma_splice(bytes: Seq<u8>, p1: int, p2: int, p3: int)
    requires
        0 <= p1 <= p2 <= p3 <= bytes.len(),
    ensures
        bytes.subrange(p1, p3) == bytes.subrange(p1, p2) + bytes.subrange(p2, p3),
{
    assert(bytes.subrange(p1, p3) =~= bytes.subrange(p1, p2) + bytes.subrange(p2, p3));
}

/// Relies on `String::from_utf8`: the string whose UTF-8 bytes are exactly
/// the input, or nothing when the input is not valid UTF-8.
#[verifier::external_body]
pub(crate) fn utf8_to_string(bytes: Vec<u8>) -> (r: Option<String>)
    ensures
        r matches Some(s) ==> encode_utf8(s@) == bytes@,
        r is Some <==> valid_utf8(bytes@),
{
    match String::from_utf8(bytes) {
        Ok(s) => Some(s),
        Err(_) => None,
    }
}

/// Reads an 8-byte big-endian integer at `pos`, or nothing when fewer than
/// 8 bytes remain.
pub fn parse_u64(bytes: &[u8], pos: usize) -> (r: Option<(u64, usize)>)
    requires
        pos <= bytes@.len(),
    ensures
        r matches Some(p) ==> {
            &&& pos + 8 == p.1 <= bytes@.len()
            &&& bytes@.subrange(pos as int, p.1 as int) == u64_be(p.0)
        },
        r is None <==> pos + 8 > bytes@.len(),
{
    if bytes.len() - pos >= 8 {
        let v = read_be_u64(bytes, pos);
        proof {
            lemma_u64_be_props(v);
            lemma_be_value_injective(
                bytes@.subrange(pos as int, pos as int + 8),
                u64_be(v),
            );
        }
        Some((v, pos + 8))
    } else {
        None
    }
}

/// Reads a length-prefixed byte string at `pos`, or nothing when the prefix
/// or the announced bytes run past the end.
pub fn parse_lp_bytes(bytes: &[u8], pos: usize) -> (r: Option<(Vec<u8>, usize)>)
    requires
        pos <= bytes@.len(),
    ensures
        r matches Some(p) ==> {
            &&& pos + 8 + p.0@.len() == p.1 <= bytes@.len()
            &&& p.0@.len() < pow2(64)
            &&& bytes@.subrange(pos as int, p.1 as int) == len_prefixed(p.0@)
            &&& bytes@.subrange(pos as int, pos as int + 8) == u64_be(p.0@.len() as u64)
            &&& p.0@ == bytes@.subrange(pos as int + 8, p.1 as int)
        },
        r is None <==> (pos + 8 > bytes@.len() || pos + 8 + be_value(
            bytes@.subrange(pos as int, pos as int + 8),
        ) > bytes@.len()),
{
    match parse_u64(bytes, pos) {
        None => None,
        Some((len_u, p1)) => {
            proof {
                lemma_u64_be_props(len_u);
            }
            if len_u <= (bytes.len() - p1) as u64 {
                let l = len_u as usize;
                proof {
                    assert(l as u64 == len_u);
                }
                let end = p1 + l;
                let seg = copy_range(bytes, p1, end);
                proof {
                    vstd::arithmetic::power2::lemma2_to64();
                    vstd::arithmetic::power2::lemma2_to64_rest();
                    lemma_splice(bytes@, pos as int, p1 as int, end as int);
                    assert(seg@.len() as u64 == len_u);
                    assert(u64_be(seg@.len() as u64) == u64_be(len_u));
                    assert(bytes@.subrange(pos as int, end as int) == u64_be(len_u) + seg@);
                }
                Some((seg, end))
            } else {
                None
            }
        },
    }
}

pub proof fn lemma_txs_encode_injective(
    t1: Seq<Seq<u8>>,
    t2: Seq<Seq<u8>>,
    r1: Seq<u8>,
    r2: Seq<u8>,
)
    requires
        t1.len() == t2.len(),
        forall|i: int| 0 <= i < t1.len() ==> t1[i].len() < pow2(64),
        forall|i: int| 0 <= i < t2.len() ==> t2[i].len() < pow2(64),
        txs_encode(t1) + r1 == txs_encode(t2) + r2,
    ensures
        t1 == t2,
        r1 == r2,
    decreases t1.len(),
{
    if t1.len() == 0 {
        assert(txs_encode(t1) == Seq::<u8>::empty());
        assert(txs_encode(t2) == Seq::<u8>::empty());
        assert(Seq::<u8>::empty() + r1 =~= r1);
        assert(Seq::<u8>::empty() + r2 =~= r2);
        assert(t1 =~= t2);
    } else {
        let a0 = t1[0];
        let b0 = t2[0];
        let x1 = txs_encode(t1.drop_first());
        let x2 = txs_encode(t2.drop_first());
        vstd::arithmetic::power2::lemma2_to64();
        vstd::arithmetic::power2::lemma2_to64_rest();
        assert(a0.len() < pow2(64));
        assert(b0.len() < pow2(64));
        lemma_u64_be_props(a0.len() as u64);
        lemma_u64_be_props(b0.len() as u64);
        assert((len_prefixed(a0) + x1) + r1 =~= u64_be(a0.len() as u64) + (a0 + (x1 + r1)));
        assert((len_prefixed(b0) + x2) + r2 =~= u64_be(b0.len() as u64) + (b0 + (x2 + r2)));
        lemma_append_inj(
            u64_be(a0.len() as u64),
            a0 + (x1 + r1),
            u64_be(b0.len() as u64),
            b0 + (x2 + r2),
        );
        lemma_u64_be_injective(a0.len() as u64, b0.len() as u64);
        assert(a0.len() == b0.len());
        lemma_append_inj(a0, x1 + r1, b0, x2 + r2);
        assert(forall|i: int|
            0 <= i < t1.drop_first().len() ==> t1.drop_first()[i].len() < pow2(64));
        assert(forall|i: int|
            0 <= i < t2.drop_first().len() ==> t2.drop_first()[i].len() < pow2(64));
        lemma_txs_encode_injective(t1.drop_first(), t2.drop_first(), r1, r2);
        assert forall|i: int| 0 <= i < t1.len() implies t1[i] == t2[i] by {
            if i > 0 {
                assert(t1.drop_first()[i - 1] == t1[i]);
                assert(t2.drop_first()[i - 1] == t2[i]);
            }
        };
        assert(t1 =~= t2);
    }
}

/// The encoding has no two readings: equal bytes mean equal blocks. With
/// the contracts of `serialize` and `deserialize` this is the round trip:
/// decoding what a block serialized to yields that block again, so
/// re-serializing gives byte-identical output.
pub proof fn lemma_encode_injective(m1: BlockModel, m2: BlockModel)
    requires
        wf_model(m1),
        wf_model(m2),
        spec_encode(m1) == spec_encode(m2),
    ensures
        m1 == m2,
{
    vstd::arithmetic::power2::lemma2_to64();
    vstd::arithmetic::power2::lemma2_to64_rest();
    lemma_u64_be_props(i64_wrap(m1.timestamp));
    lemma_u64_be_props(i64_wrap(m2.timestamp));
    lemma_append_inj(
        u64_be(i64_wrap(m1.timestamp)),
        tail_pre(m1),
        u64_be(i64_wrap(m2.timestamp)),
        tail_pre(m2),
    );
    lemma_u64_be_injective(i64_wrap(m1.timestamp), i64_wrap(m2.timestamp));
    crate::proof_of_work::lemma_i64_wrap_injective(m1.timestamp, m2.timestamp);
    let p1 = encode_utf8(m1.pre_block_hash);
    let p2 = encode_utf8(m2.pre_block_hash);
    lemma_u64_be_props(p1.len() as u64);
    lemma_u64_be_props(p2.len() as u64);
    assert(tail_pre(m1) =~= u64_be(p1.len() as u64) + (p1 + tail_hash(m1)));
    assert(tail_pre(m2) =~= u64_be(p2.len() as u64) + (p2 + tail_hash(m2)));
    lemma_append_inj(
        u64_be(p1.len() as u64),
        p1 + tail_hash(m1),
        u64_be(p2.len() as u64),
        p2 + tail_hash(m2),
    );
    lemma_u64_be_injective(p1.len() as u64, p2.len() as u64);
    assert(p1.len() == p2.len());
    lemma_append_inj(p1, tail_hash(m1), p2, tail_hash(m2));
    vstd::utf8::encode_utf8_decode_utf8(m1.pre_block_hash);
    vstd::utf8::encode_utf8_decode_utf8(m2.pre_block_hash);
    assert(m1.pre_block_hash == m2.pre_block_hash);
    let h1 = encode_utf8(m1.hash);
    let h2 = encode_utf8(m2.hash);
    lemma_u64_be_props(h1.len() as u64);
    lemma_u64_be_props(h2.len() as u64);
    assert(tail_hash(m1) =~= u64_be(h1.len() as u64) + (h1 + tail_txs(m1)));
    assert(tail_hash(m2) =~= u64_be(h2.len() as u64) + (h2 + tail_txs(m2)));
    lemma_append_inj(
        u64_be(h1.len() as u64),
        h1 + tail_txs(m1),
        u64_be(h2.len() as u64),
        h2 + tail_txs(m2),
    );
    lemma_u64_be_injective(h1.len() as u64, h2.len() as u64);
    assert(h1.len() == h2.len());
    lemma_append_inj(h1, tail_txs(m1), h2, tail_txs(m2));
    vstd::utf8::encode_utf8_decode_utf8(m1.hash);
    vstd::utf8::encode_utf8_decode_utf8(m2.hash);
    assert(m1.hash == m2.hash);
    lemma_u64_be_props(m1.transactions.len() as u64);
    lemma_u64_be_props(m2.transactions.len() as u64);
    lemma_append_inj(
        u64_be(m1.transactions.len() as u64),
        txs_encode(m1.transactions) + tail_end(m1),
        u64_be(m2.transactions.len() as u64),
        txs_encode(m2.transactions) + tail_end(m2),
    );
    lemma_u64_be_injective(m1.transactions.len() as u64, m2.transactions.len() as u64);
    assert(m1.transactions.len() == m2.transactions.len());
    lemma_txs_encode_injective(m1.transactions, m2.transactions, tail_end(m1), tail_end(m2));
    lemma_u64_be_props(i64_wrap(m1.nonce));
    lemma_u64_be_props(i64_wrap(m2.nonce));
    lemma_append_inj(
        u64_be(i64_wrap(m1.nonce)),
        u64_be(m1.height as u64),
        u64_be(i64_wrap(m2.nonce)),
        u64_be(m2.height as u64),
    );
    lemma_u64_be_injective(i64_wrap(m1.nonce), i64_wrap(m2.nonce));
    crate::proof_of_work::lemma_i64_wrap_injective(m1.nonce, m2.nonce);
    lemma_u64_be_injective(m1.height as u64, m2.height as u64);
    assert(m1 =~= m2);
}

/// Reads a length-prefixed UTF-8 string at `pos`, or nothing when the
/// prefix or the announced bytes run past the end, or the bytes are not
/// valid UTF-8.
pub(crate) fn parse_lp_string(bytes: &[u8], pos: usize) -> (r: Option<(String, usize)>)
    requires
        pos <= bytes@.len(),
    ensures
        r matches Some(p) ==> {
            &&& pos + 8 + encode_utf8(p.0@).len() == p.1 <= bytes@.len()
            &&& encode_utf8(p.0@).len() < pow2(64)
            &&& bytes@.subrange(pos as int, p.1 as int) == len_prefixed(encode_utf8(p.0@))
            &&& bytes@.subrange(pos as int, pos as int + 8) == u64_be(
                encode_utf8(p.0@).len() as u64,
            )
            &&& encode_utf8(p.0@) == bytes@.subrange(pos as int + 8, p.1 as int)
        },
        r is None <==> (pos + 8 > bytes@.len() || pos + 8 + be_value(
            bytes@.subrange(pos as int, pos as int + 8),
        ) > bytes@.len() || !valid_utf8(
            bytes@.subrange(
                pos as int + 8,
                pos as int + 8 + be_value(bytes@.subrange(pos as int, pos as int + 8)),
            ),
        )),
{
    match parse_lp_bytes(bytes, pos) {
        None => None,
        Some((seg, end)) => {
            let ghost seg_seq: Seq<u8> = seg@;
            proof {
                lemma_u64_be_props(seg_seq.len() as u64);
                assert(be_value(bytes@.subrange(pos as int, pos as int + 8)) == seg_seq.len());
            }
            match utf8_to_string(seg) {
                None => None,
                Some(s) => {
                    proof {
                        vstd::utf8::encode_utf8_valid_utf8(s@);
                    }
                    Some((s, end))
                },
            }
        },
    }
}

} // verus!
