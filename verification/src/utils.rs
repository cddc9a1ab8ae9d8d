//! Hashing, hex and clock primitives, plus small verified byte helpers.
use crate::errors::BlockError;
use vstd::prelude::*;

verus! {

/// The SHA-256 digest of a byte sequence. Only the external implementation
/// pins its value; the library states everything else over this name.
pub uninterp spec fn sha256_of(data: Seq<u8>) -> Seq<u8>;

/// Relies on `ring::digest` with `SHA256`: a 32-byte digest that depends on
/// the input bytes alone.
#[verifier::external_body]
pub fn sha256_digest(data: &[u8]) -> (r: Vec<u8>)
    ensures
        r@ == sha256_of(data@),
        r@.len() == 32,
{
    let mut context = ring::digest::Context::new(&ring::digest::SHA256);
    context.update(data);
    let digest = context.finish();
    digest.as_ref().to_vec()
}

/// The lowercase hex digit for a nibble.
pub open spec fn hex_digit(n: u8) -> char
    recommends
        n < 16,
{
    if n < 10 {
        ((48 + n) as char)
    } else {
        ((87 + n) as char)
    }
}

/// Lowercase hex encoding: two digits per byte, high nibble first.
pub open spec fn hex_of(bytes: Seq<u8>) -> Seq<char> {
    Seq::new(
        bytes.len() * 2,
        |i: int|
            if i % 2 == 0 {
                hex_digit(bytes[i / 2] / 16)
            } else {
                hex_digit(bytes[i / 2] % 16)
            },
    )
}

/// Relies on `data_encoding::HEXLOWER.encode`: lowercase hex, two digits per
/// byte, bytes in order, high nibble first.
#[verifier::external_body]
pub(crate) fn hex_encode(data: &[u8]) -> (s: String)
    ensures
        s@ == hex_of(data@),
{
    data_encoding::HEXLOWER.encode(data)
}

/// Relies on `std::time::SystemTime::now` read against `UNIX_EPOCH`:
/// milliseconds since the epoch, or nothing when the clock reads before it.
/// The value depends on the clock, so nothing is promised of it.
#[verifier::external_body]
fn clock_millis() -> (r: Option<u128>) {
    match std::time::SystemTime::now().duration_since(std::time::UNIX_EPOCH) {
        Ok(d) => Some(d.as_millis()),
        Err(_) => None,
    }
}

/// Maps a drawn clock reading to a timestamp: the milliseconds themselves
/// when they fit an `i64`, `ClockError` when the clock failed or the value
/// overflows.
pub fn millis_to_timestamp(m: Option<u128>) -> (r: Result<i64, BlockError>)
    ensures
        m matches Some(v) ==> r == (if v <= i64::MAX as u128 {
            Ok::<i64, BlockError>(v as i64)
        } else {
            Err::<i64, BlockError>(BlockError::ClockError)
        }),
        m is None ==> r == Err::<i64, BlockError>(BlockError::ClockError),
{
    match m {
        Some(v) => {
            if v <= i64::MAX as u128 {
                Ok(v as i64)
            } else {
                Err(BlockError::ClockError)
            }
        },
        None => Err(BlockError::ClockError),
    }
}

/// The current time in milliseconds since the Unix epoch, or `ClockError`
/// when the clock reads before the epoch or past `i64::MAX` milliseconds.
/// The reading itself is the clock's; `millis_to_timestamp` fixes what is
/// returned for every value of it.
pub fn current_timestamp() -> (r: Result<i64, BlockError>)
    ensures
        r matches Ok(t) ==> t >= 0,
        r matches Err(e) ==> e == BlockError::ClockError,
{
    millis_to_timestamp(clock_millis())
}

/// Appends every byte of `src` to `dst`.
pub fn push_bytes(dst: &mut Vec<u8>, src: &[u8])
    ensures
        final(dst)@ == old(dst)@ + src@,
{
    let n = src.len();
    let mut i: usize = 0;
    while i < n
        invariant
            i <= n,
            n == src@.len(),
            dst@ == old(dst)@ + src@.subrange(0, i as int),
        decreases n - i,
    {
        proof {
            assert(old(dst)@ + src@.subrange(0, i as int + 1) =~= (old(dst)@ + src@.subrange(
                0,
                i as int,
            )).push(src@[i as int]));
        }
        dst.push(src[i]);
        i += 1;
    }
    proof {
        assert(src@.subrange(0, n as int) =~= src@);
    }
}

/// Copies the bytes of `src` between `from` and `to` into a fresh vector.
pub fn copy_range(src: &[u8], from: usize, to: usize) -> (r: Vec<u8>)
    requires
        from <= to <= src@.len(),
    ensures
        r@ == src@.subrange(from as int, to as int),
{
    let mut r: Vec<u8> = Vec::new();
    push_bytes(&mut r, vstd::slice::slice_subrange(src, from, to));
    proof {
        assert(Seq::<u8>::empty() + src@.subrange(from as int, to as int) =~= src@.subrange(
            from as int,
            to as int,
        ));
    }
    r
}

} // verus!
