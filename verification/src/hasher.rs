//! Hashing of routing keys to 64-bit points.
//!
//! The recognized kind is `md5`: the first 8 bytes of the MD5 digest of the
//! key, read big-endian.  A hasher is deterministic and side-effect free; it
//! sees only the routing key the codec extracted, never the full command.

use vstd::prelude::*;

use crypto::digest::Digest;

verus! {

broadcast use vstd::seq::group_seq_axioms;

/// The MD5 digest of a byte sequence.  The digest is a function of the input
/// bytes alone; its 16-byte value is fixed by the MD5 specification and is
/// not restated here.
pub uninterp spec fn md5_digest(data: Seq<u8>) -> Seq<u8>;

/// Relies on `crypto::md5::Md5` (the `rust-crypto` crate): the MD5 digest of
/// the input, 16 bytes, depending on the input bytes alone.
#[verifier::external_body]
fn md5_of(data: &[u8]) -> (r: Vec<u8>)
    ensures
        r@ == md5_digest(data@),
        r@.len() == 16,
{
    let mut h = crypto::md5::Md5::new();
    h.input(data);
    let mut out = vec![0u8; 16];
    h.result(&mut out);
    out
}

/// The big-endian value of a byte sequence.
pub open spec fn be_value(s: Seq<u8>) -> int
    decreases s.len(),
{
    if s.len() == 0 {
        0
    } else {
        be_value(s.drop_last()) * 256 + s.last()
    }
}

/// The 64-bit point a key hashes to under `md5`: the first 8 digest bytes,
/// big-endian.
pub open spec fn md5_point(key: Seq<u8>) -> int {
    be_value(md5_digest(key).subrange(0, 8))
}

/// The recognized key-hashing kinds.
#[derive(Clone, Copy, PartialEq, Eq, Structural, Debug)]
pub enum HasherKind {
    Md5,
}

/// The point a key hashes to under a hasher kind.
pub open spec fn point_of(kind: HasherKind, key: Seq<u8>) -> int {
    match kind {
        HasherKind::Md5 => md5_point(key),
    }
}

/// Reads the first 8 bytes of a digest as a big-endian 64-bit value.
fn be64_of_prefix(d: &Vec<u8>) -> (r: u64)
    requires
        d@.len() >= 8,
    ensures
        r == be_value(d@.subrange(0, 8)),
{
    let mut acc: u64 = 0;
    let mut i: usize = 0;
    while i < 8
        invariant
            i <= 8,
            d@.len() >= 8,
            acc == be_value(d@.subrange(0, i as int)),
            acc < pow256(i as nat),
        decreases 8 - i,
    {
        proof {
            assert(d@.subrange(0, (i + 1) as int).drop_last() =~= d@.subrange(0, i as int));
            lemma_pow256_bound(i as nat);
        }
        acc = acc * 256 + (d[i] as u64);
        i += 1;
    }
    proof {
        assert(d@.subrange(0, 8).len() == 8);
    }
    acc
}

/// 256 raised to `n`, for overflow bounds on big-endian accumulation.
pub open spec fn pow256(n: nat) -> int
    decreases n,
{
    if n == 0 {
        1
    } else {
        256 * pow256((n - 1) as nat)
    }
}

proof fn lemma_pow256_bound(n: nat)
    requires
        n < 8,
    ensures
        pow256(n) <= 0x100000000000000,
{
    assert(pow256(0) == 1);
    assert(pow256(1) == 256);
    assert(pow256(2) == 0x10000);
    assert(pow256(3) == 0x1000000);
    assert(pow256(4) == 0x100000000);
    assert(pow256(5) == 0x10000000000);
    assert(pow256(6) == 0x1000000000000);
    assert(pow256(7) == 0x100000000000000);
}

/// Hashes a routing key to its 64-bit point under the given kind.
pub fn hash_key(kind: HasherKind, key: &[u8]) -> (r: u64)
    ensures
        r == point_of(kind, key@),
{
    match kind {
        HasherKind::Md5 => {
            let digest = md5_of(key);
            be64_of_prefix(&digest)
        },
    }
}

} // verus!
