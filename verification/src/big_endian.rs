//! Big-endian interpretation of byte sequences, together with the
//! conversions and comparisons the block codec and the mining target need.
use vstd::arithmetic::div_mod::{lemma_div_denominator, lemma_fundamental_div_mod};
use vstd::arithmetic::power2::{lemma2_to64, lemma_pow2_adds, lemma_pow2_pos, pow2};
use vstd::bits::{
    lemma_low_bits_mask_values, lemma_u64_low_bits_mask_is_mod, lemma_u64_shr_is_div,
    lemma_u8_shl_is_mul,
};
use vstd::prelude::*;

verus! {

/// The value of a byte sequence read as a big-endian unsigned integer.
pub open spec fn be_value(s: Seq<u8>) -> nat
    decreases s.len(),
{
    if s.len() == 0 {
        0
    } else {
        be_value(s.drop_last()) * 256 + (s.last() as nat)
    }
}

/// The `n`-byte big-endian representation of `x % 2^(8n)`.
pub open spec fn nat_to_be_bytes(x: nat, n: nat) -> Seq<u8>
    decreases n,
{
    if n == 0 {
        Seq::empty()
    } else {
        nat_to_be_bytes(x / 256, (n - 1) as nat).push((x % 256) as u8)
    }
}

/// The 8-byte big-endian representation of a `u64`.
pub open spec fn u64_be(x: u64) -> Seq<u8> {
    nat_to_be_bytes(x as nat, 8)
}

/// The 4-byte big-endian representation of a `u32`.
pub open spec fn u32_be(x: u32) -> Seq<u8> {
    nat_to_be_bytes(x as nat, 4)
}

pub proof fn lemma_be_value_push(s: Seq<u8>, b: u8)
    ensures
        be_value(s.push(b)) == be_value(s) * 256 + (b as nat),
{
    assert(s.push(b).drop_last() =~= s);
}

pub proof fn lemma_be_value_bound(s: Seq<u8>)
    ensures
        be_value(s) < pow2(8 * s.len()),
    decreases s.len(),
{
    if s.len() == 0 {
        lemma2_to64();
    } else {
        let prev = s.drop_last();
        lemma_be_value_bound(prev);
        lemma_pow2_adds(8 * prev.len(), 8);
        lemma2_to64();
        assert(be_value(prev) * 256 + (s.last() as nat) < pow2(8 * prev.len()) * 256)
            by (nonlinear_arith)
            requires
                be_value(prev) < pow2(8 * prev.len()),
                s.last() < 256,
        ;
        assert(8 * s.len() == 8 * prev.len() + 8);
    }
}

pub proof fn lemma_be_value_append(x: Seq<u8>, y: Seq<u8>)
    ensures
        be_value(x + y) == be_value(x) * pow2(8 * y.len()) + be_value(y),
    decreases y.len(),
{
    if y.len() == 0 {
        assert(x + y =~= x);
        lemma2_to64();
    } else {
        let y0 = y.drop_last();
        let b = y.last();
        lemma_be_value_append(x, y0);
        assert((x + y).drop_last() =~= x + y0);
        assert((x + y).last() == b);
        lemma_pow2_adds(8 * y0.len(), 8);
        lemma2_to64();
        assert((be_value(x) * pow2(8 * y0.len()) + be_value(y0)) * 256 + (b as nat) == be_value(x)
            * (pow2(8 * y0.len()) * 256) + (be_value(y0) * 256 + (b as nat))) by (nonlinear_arith);
        assert(8 * y.len() == 8 * y0.len() + 8);
    }
}

pub proof fn lemma_be_value_injective(a: Seq<u8>, b: Seq<u8>)
    requires
        a.len() == b.len(),
        be_value(a) == be_value(b),
    ensures
        a == b,
    decreases a.len(),
{
    if a.len() == 0 {
        assert(a =~= b);
    } else {
        let qa = be_value(a.drop_last());
        let qb = be_value(b.drop_last());
        assert(qa * 256 + (a.last() as nat) == qb * 256 + (b.last() as nat));
        assert(qa == qb && a.last() == b.last()) by (nonlinear_arith)
            requires
                qa * 256 + (a.last() as nat) == qb * 256 + (b.last() as nat),
                a.last() < 256,
                b.last() < 256,
        ;
        lemma_be_value_injective(a.drop_last(), b.drop_last());
        assert(a =~= a.drop_last().push(a.last()));
        assert(b =~= b.drop_last().push(b.last()));
    }
}

pub proof fn lemma_nat_to_be_bytes_value(x: nat, n: nat)
    requires
        x < pow2(8 * n),
    ensures
        nat_to_be_bytes(x, n).len() == n,
        be_value(nat_to_be_bytes(x, n)) == x,
    decreases n,
{
    if n == 0 {
        lemma2_to64();
    } else {
        let q = x / 256;
        let r = x % 256;
        lemma_pow2_adds(8 * ((n - 1) as nat), 8);
        lemma2_to64();
        assert(q < pow2(8 * (n - 1) as nat)) by (nonlinear_arith)
            requires
                x < pow2(8 * ((n - 1) as nat)) * 256,
                q == x / 256,
        ;
        lemma_nat_to_be_bytes_value(q, (n - 1) as nat);
        lemma_be_value_push(nat_to_be_bytes(q, (n - 1) as nat), (r as u8));
        lemma_fundamental_div_mod(x as int, 256);
    }
}

pub proof fn lemma_u64_be_props(x: u64)
    ensures
        u64_be(x).len() == 8,
        be_value(u64_be(x)) == x,
{
    lemma2_to64();
    vstd::arithmetic::power2::lemma2_to64_rest();
    lemma_nat_to_be_bytes_value(x as nat, 8);
}

pub proof fn lemma_u64_be_injective(a: u64, b: u64)
    requires
        u64_be(a) == u64_be(b),
    ensures
        a == b,
{
    lemma_u64_be_props(a);
    lemma_u64_be_props(b);
}

/// If two equal-length byte strings agree up to position `i` and differ there,
/// the one with the smaller byte at `i` has the smaller big-endian value.
pub proof fn lemma_be_value_lt(a: Seq<u8>, b: Seq<u8>, i: int)
    requires
        a.len() == b.len(),
        0 <= i < a.len(),
        a.subrange(0, i) == b.subrange(0, i),
        a[i] < b[i],
    ensures
        be_value(a) < be_value(b),
{
    let l = a.len() as int;
    let pre_a = a.subrange(0, i + 1);
    let suf_a = a.subrange(i + 1, l);
    let pre_b = b.subrange(0, i + 1);
    let suf_b = b.subrange(i + 1, l);
    assert(a =~= pre_a + suf_a);
    assert(b =~= pre_b + suf_b);
    lemma_be_value_append(pre_a, suf_a);
    lemma_be_value_append(pre_b, suf_b);
    assert(pre_a =~= a.subrange(0, i).push(a[i]));
    assert(pre_b =~= b.subrange(0, i).push(b[i]));
    lemma_be_value_push(a.subrange(0, i), a[i]);
    lemma_be_value_push(b.subrange(0, i), b[i]);
    lemma_be_value_bound(suf_a);
    let p = pow2(8 * suf_a.len());
    lemma_pow2_pos(8 * suf_a.len());
    assert(be_value(pre_a) * p + be_value(suf_a) < be_value(pre_b) * p + be_value(suf_b))
        by (nonlinear_arith)
        requires
            be_value(pre_a) + 1 <= be_value(pre_b),
            be_value(suf_a) < p,
            0 < p,
    ;
}

/// Writes the `n` low-order bytes of `x`, most significant first.
pub fn be_bytes_trunc(x: u64, n: usize) -> (r: Vec<u8>)
    requires
        n <= 8,
        x < pow2(8 * n as nat),
    ensures
        r@ == nat_to_be_bytes(x as nat, n as nat),
        r@.len() == n,
{
    let mut r: Vec<u8> = Vec::new();
    let mut i: usize = 0;
    proof {
        lemma2_to64();
        lemma_pow2_pos(8 * n as nat);
        vstd::arithmetic::div_mod::lemma_basic_div(x as int, pow2(8 * n as nat) as int);
    }
    while i < n
        invariant
            i <= n,
            n <= 8,
            x < pow2(8 * n as nat),
            r@.len() == i,
            be_value(r@) == (x as nat) / pow2((8 * (n - i)) as nat),
        decreases n - i,
    {
        let shift: u64 = (8 * (n - 1 - i)) as u64;
        let masked: u64 = (x >> shift) & 0xff;
        proof {
            lemma_u64_shr_is_div(x, shift);
            lemma_u64_low_bits_mask_is_mod(x >> shift, 8);
            lemma_low_bits_mask_values();
            lemma2_to64();
            assert(masked < 256);
            let y = (x as nat) / pow2(shift as nat);
            lemma_pow2_pos(shift as nat);
            lemma_div_denominator(x as int, pow2(shift as nat) as int, 256);
            lemma_pow2_adds(shift as nat, 8);
            assert((x as nat) / pow2((8 * (n - i)) as nat) == y / 256);
            lemma_fundamental_div_mod(y as int, 256);
            lemma_be_value_push(r@, ((x >> shift) & 0xff) as u8);
        }
        let b: u8 = masked as u8;
        r.push(b);
        i += 1;
    }
    proof {
        lemma2_to64();
        vstd::arithmetic::div_mod::lemma_div_basics(x as int);
        assert(be_value(r@) == x as nat);
        lemma_pow2_adds(8 * n as nat, 8 * (8 - n) as nat);
        lemma_pow2_pos(8 * (8 - n) as nat);
        assert(x < pow2(8 * n as nat));
        lemma_nat_to_be_bytes_value(x as nat, n as nat);
        lemma_be_value_injective(r@, nat_to_be_bytes(x as nat, n as nat));
    }
    r
}

/// Writes a `u64` as its 8 bytes, most significant first.
pub fn u64_to_be_bytes(x: u64) -> (r: Vec<u8>)
    ensures
        r@ == u64_be(x),
        r@.len() == 8,
{
    proof {
        lemma2_to64();
        vstd::arithmetic::power2::lemma2_to64_rest();
        assert((x as nat) < pow2(64));
    }
    be_bytes_trunc(x, 8)
}

/// Writes a `u32` as its 4 bytes, most significant first.
pub fn u32_to_be_bytes(x: u32) -> (r: Vec<u8>)
    ensures
        r@ == u32_be(x),
        r@.len() == 4,
{
    proof {
        lemma2_to64();
        assert((x as nat) < pow2(32));
    }
    be_bytes_trunc(x as u64, 4)
}

/// Reads 8 bytes starting at `pos`, most significant first.
pub fn read_be_u64(s: &[u8], pos: usize) -> (x: u64)
    requires
        pos + 8 <= s@.len(),
    ensures
        x as nat == be_value(s@.subrange(pos as int, pos as int + 8)),
{
    let mut x: u64 = 0;
    let mut i: usize = 0;
    let slen = s.len();
    proof {
        lemma2_to64();
    }
    while i < 8
        invariant
            i <= 8,
            slen == s@.len(),
            pos + 8 <= slen,
            x as nat == be_value(s@.subrange(pos as int, pos as int + i)),
            x < pow2(8 * i as nat),
        decreases 8 - i,
    {
        proof {
            lemma2_to64();
            vstd::arithmetic::power2::lemma2_to64_rest();
            lemma_pow2_adds(8 * i as nat, 8);
            assert((x as nat) * 256 + 255 < pow2((8 * (i + 1)) as nat)) by (nonlinear_arith)
                requires
                    (x as nat) < pow2(8 * i as nat),
                    pow2((8 * (i + 1)) as nat) == pow2(8 * i as nat) * 256,
            ;
            assert(pow2((8 * (i + 1)) as nat) <= pow2(64)) by {
                if i < 7 {
                    vstd::arithmetic::power2::lemma_pow2_strictly_increases(
                        (8 * (i + 1)) as nat,
                        64,
                    );
                }
            }
            assert(s@.subrange(pos as int, pos as int + i + 1) =~= s@.subrange(
                pos as int,
                pos as int + i,
            ).push(s@[pos as int + i]));
            lemma_be_value_push(s@.subrange(pos as int, pos as int + i), s@[pos as int + i]);
        }
        x = x * 256 + (s[pos + i] as u64);
        i += 1;
    }
    x
}

/// Compares two equal-length byte strings as big-endian integers.
pub fn be_less(a: &[u8], b: &[u8]) -> (r: bool)
    requires
        a@.len() == b@.len(),
    ensures
        r == (be_value(a@) < be_value(b@)),
{
    let n = a.len();
    let mut i: usize = 0;
    while i < n
        invariant
            i <= n,
            n == a@.len(),
            a@.len() == b@.len(),
            a@.subrange(0, i as int) == b@.subrange(0, i as int),
        decreases n - i,
    {
        let x = a[i];
        let y = b[i];
        if x < y {
            proof {
                lemma_be_value_lt(a@, b@, i as int);
            }
            return true;
        }
        if x > y {
            proof {
                lemma_be_value_lt(b@, a@, i as int);
            }
            return false;
        }
        proof {
            assert(a@.subrange(0, i as int + 1) =~= b@.subrange(0, i as int + 1));
        }
        i += 1;
    }
    proof {
        assert(a@.subrange(0, n as int) =~= a@);
        assert(b@.subrange(0, n as int) =~= b@);
        assert(a@ == b@);
    }
    false
}

/// The all-zero byte string of length `n`.
pub open spec fn zero_bytes(n: nat) -> Seq<u8> {
    Seq::new(n, |i: int| 0u8)
}

pub proof fn lemma_be_value_zero(n: nat)
    ensures
        be_value(zero_bytes(n)) == 0,
    decreases n,
{
    if n > 0 {
        assert(zero_bytes(n).drop_last() =~= zero_bytes((n - 1) as nat));
        lemma_be_value_zero((n - 1) as nat);
    }
}

/// The 33-byte big-endian representation of the mining target `2^(256 - bits)`.
pub fn target_for_bits(bits: u32) -> (t: Vec<u8>)
    requires
        bits <= 256,
    ensures
        t@.len() == 33,
        be_value(t@) == pow2((256 - bits) as nat),
{
    let k: u32 = 256 - bits;
    let idx: usize = (32 - k / 8) as usize;
    let rem: u32 = k % 8;
    proof {
        lemma2_to64();
        lemma_u8_shl_is_mul(1u8, rem as u8);
    }
    let v: u8 = 1u8 << (rem as u8);
    let mut t: Vec<u8> = Vec::new();
    let mut j: usize = 0;
    while j < 33
        invariant
            j <= 33,
            idx <= 32,
            t@.len() == j,
            v as nat == pow2((k % 8) as nat),
            forall|m: int| 0 <= m < j ==> t@[m] == (if m == idx { v } else { 0u8 }),
        decreases 33 - j,
    {
        if j == idx {
            t.push(v);
        } else {
            t.push(0u8);
        }
        j += 1;
    }
    proof {
        let q = (k / 8) as nat;
        let front = zero_bytes((32 - q) as nat);
        let back = zero_bytes(q);
        let mid: Seq<u8> = seq![v];
        assert(t@ =~= front + (mid + back));
        lemma_be_value_zero((32 - q) as nat);
        lemma_be_value_zero(q);
        lemma_be_value_append(front, mid + back);
        lemma_be_value_append(mid, back);
        assert(mid.drop_last() =~= Seq::<u8>::empty());
        assert(be_value(mid) == be_value(mid.drop_last()) * 256 + (mid.last() as nat));
        assert(be_value(Seq::<u8>::empty()) == 0);
        assert(mid.last() == v);
        assert(be_value(mid) == v as nat);
        assert(be_value(t@) == (v as nat) * pow2(8 * q));
        lemma_pow2_adds((k % 8) as nat, 8 * q);
        lemma_fundamental_div_mod(k as int, 8);
        assert((k % 8) as nat + 8 * q == k as nat);
    }
    t
}

} // verus!
