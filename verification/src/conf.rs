//! Typed configuration values and their parsers: distribution, hash and
//! no-key-policy names, route types, and decimal option values.  The
//! JSON-ish file walking lives in the daemon; it hands plain strings here
//! and an unrecognized value is a fatal configuration error.

use vstd::prelude::*;

use crate::ascii::str_eq;
use crate::hasher::HasherKind;
use crate::pool::NoKeyPolicy;
use crate::router::RouterPolicy;

verus! {

broadcast use vstd::seq::group_seq_axioms;

/// Default cool-off length for a failing backend.
pub const DEFAULT_COOLOFF_TIMEOUT_MS: u64 = 10000;

/// Default per-request timeout.
pub const DEFAULT_TIMEOUT_MS: u64 = 1000;

/// Default connection-pool size per backend.
pub const DEFAULT_CONNECTIONS_PER_BACKEND: u64 = 1;

/// Default drain window after the close signal.
pub const DEFAULT_DRAIN_MS: u64 = 3000;

/// The recognized key-distribution kinds.
#[derive(Clone, Copy, PartialEq, Eq, Structural, Debug)]
pub enum DistributionKind {
    Random,
    Modulo,
}

/// Parses a `distribution` option value: `"random"` or `"modulo"`,
/// anything else is rejected.
pub fn parse_distribution(s: &str) -> (r: Option<DistributionKind>)
    ensures
        (r is Some) <==> (s@ == "random"@ || s@ == "modulo"@),
        s@ == "random"@ ==> r == Some(DistributionKind::Random),
        s@ == "modulo"@ ==> r == Some(DistributionKind::Modulo),
{
    proof {
        reveal_strlit("random");
        reveal_strlit("modulo");
        assert("random"@[0] == 'r' && "modulo"@[0] == 'm');
    }
    if str_eq(s, "random") {
        Some(DistributionKind::Random)
    } else if str_eq(s, "modulo") {
        Some(DistributionKind::Modulo)
    } else {
        None
    }
}

/// Parses a `hash` option value: only `"md5"` is recognized.
pub fn parse_hash(s: &str) -> (r: Option<HasherKind>)
    ensures
        (r is Some) <==> s@ == "md5"@,
        s@ == "md5"@ ==> r == Some(HasherKind::Md5),
{
    if str_eq(s, "md5") {
        Some(HasherKind::Md5)
    } else {
        None
    }
}

/// Parses a `no_key_policy` option value: `"first_backend"` or
/// `"broadcast"`.
pub fn parse_no_key_policy(s: &str) -> (r: Option<NoKeyPolicy>)
    ensures
        (r is Some) <==> (s@ == "first_backend"@ || s@ == "broadcast"@),
        s@ == "first_backend"@ ==> r == Some(NoKeyPolicy::FirstBackend),
        s@ == "broadcast"@ ==> r == Some(NoKeyPolicy::Broadcast),
{
    proof {
        reveal_strlit("first_backend");
        reveal_strlit("broadcast");
        assert("first_backend"@[0] == 'f' && "broadcast"@[0] == 'b');
    }
    if str_eq(s, "first_backend") {
        Some(NoKeyPolicy::FirstBackend)
    } else if str_eq(s, "broadcast") {
        Some(NoKeyPolicy::Broadcast)
    } else {
        None
    }
}

/// Parses a `routing.type` value: `"fixed"`, `"warmup"` or `"shadow"`.
pub fn parse_route_type(s: &str) -> (r: Option<RouterPolicy>)
    ensures
        (r is Some) <==> (s@ == "fixed"@ || s@ == "warmup"@ || s@ == "shadow"@),
        s@ == "fixed"@ ==> r == Some(RouterPolicy::Fixed),
        s@ == "warmup"@ ==> r == Some(RouterPolicy::Warmup),
        s@ == "shadow"@ ==> r == Some(RouterPolicy::Shadow),
{
    proof {
        reveal_strlit("fixed");
        reveal_strlit("warmup");
        reveal_strlit("shadow");
        assert("fixed"@[0] == 'f' && "warmup"@[0] == 'w' && "shadow"@[0] == 's');
    }
    if str_eq(s, "fixed") {
        Some(RouterPolicy::Fixed)
    } else if str_eq(s, "warmup") {
        Some(RouterPolicy::Warmup)
    } else if str_eq(s, "shadow") {
        Some(RouterPolicy::Shadow)
    } else {
        None
    }
}

/// Whether every byte is an ASCII decimal digit.
pub open spec fn is_digits(s: Seq<u8>) -> bool {
    forall|i: int| 0 <= i < s.len() ==> 48 <= #[trigger] s[i] <= 57
}

/// The value of a decimal digit string.
pub open spec fn dec_value(s: Seq<u8>) -> int
    decreases s,
{
    if s.len() == 0 {
        0
    } else {
        dec_value(s.drop_last()) * 10 + (s.last() - 48)
    }
}

/// A digit string's value never shrinks as digits are appended.
pub proof fn lemma_dec_value_prefix(s: Seq<u8>, i: int)
    requires
        is_digits(s),
        0 <= i <= s.len(),
    ensures
        dec_value(s.subrange(0, i)) <= dec_value(s),
    decreases s.len() - i,
{
    if i < s.len() {
        lemma_dec_value_prefix(s, i + 1);
        assert(s.subrange(0, i + 1).drop_last() =~= s.subrange(0, i));
        assert(dec_value(s.subrange(0, i)) * 10 + (s[i] - 48) == dec_value(s.subrange(0, i + 1)));
        assert(dec_value(s.subrange(0, i)) >= 0) by {
            lemma_dec_value_nonneg(s.subrange(0, i));
        }
    } else {
        assert(s.subrange(0, i) =~= s);
    }
}

/// A digit string's value is never negative.
pub proof fn lemma_dec_value_nonneg(s: Seq<u8>)
    requires
        is_digits(s),
    ensures
        dec_value(s) >= 0,
    decreases s,
{
    if s.len() > 0 {
        assert(is_digits(s.drop_last()));
        lemma_dec_value_nonneg(s.drop_last());
    }
}

/// Parses a non-empty decimal digit string into a 64-bit value: the way
/// numeric option values such as `timeout_ms` arrive from the
/// configuration file.  Rejects empty input, any non-digit byte, and any
/// value over `u64::MAX`.
#[verifier::loop_isolation(false)]
pub fn parse_u64_dec(s: &[u8]) -> (r: Option<u64>)
    ensures
        (r is Some) <==> (is_digits(s@) && s@.len() > 0 && dec_value(s@) <= u64::MAX),
        r matches Some(v) ==> v == dec_value(s@),
{
    let n = s.len();
    if n == 0 {
        return None;
    }
    let mut acc: u64 = 0;
    let mut i: usize = 0;
    while i < n
        invariant
            i <= n,
            n == s@.len(),
            n > 0,
            is_digits(s@.subrange(0, i as int)),
            acc == dec_value(s@.subrange(0, i as int)),
        decreases n - i,
    {
        let b = s[i];
        if b < 48 || b > 57 {
            proof {
                assert(!is_digits(s@)) by {
                    assert(!(48 <= s@[i as int] <= 57));
                }
            }
            return None;
        }
        let d = b - 48;
        proof {
            assert(s@.subrange(0, (i + 1) as int).drop_last() =~= s@.subrange(0, i as int));
        }
        if acc > (u64::MAX - (d as u64)) / 10 {
            proof {
                assert(is_digits(s@.subrange(0, (i + 1) as int)));
                assert(dec_value(s@.subrange(0, (i + 1) as int)) > u64::MAX);
                if is_digits(s@) {
                    lemma_dec_value_prefix(s@, (i + 1) as int);
                }
            }
            return None;
        }
        acc = acc * 10 + (d as u64);
        i += 1;
    }
    proof {
        assert(s@.subrange(0, n as int) =~= s@);
    }
    Some(acc)
}

/// Every per-pool option, with its default where the file names none.
#[derive(Clone, Copy, PartialEq, Eq, Structural, Debug)]
pub struct PoolOptions {
    pub distribution: DistributionKind,
    pub hash: HasherKind,
    pub cooloff_timeout_ms: u64,
    pub timeout_ms: u64,
    pub connections_per_backend: u64,
    pub no_key_policy: NoKeyPolicy,
}

impl PoolOptions {
    /// The defaults: random distribution, md5 hashing, 10 s cool-off, 1 s
    /// per-request timeout, one connection per backend, first-backend
    /// no-key policy.
    pub fn defaults() -> (r: PoolOptions)
        ensures
            r.distribution == DistributionKind::Random,
            r.hash == HasherKind::Md5,
            r.cooloff_timeout_ms == DEFAULT_COOLOFF_TIMEOUT_MS,
            r.timeout_ms == DEFAULT_TIMEOUT_MS,
            r.connections_per_backend == DEFAULT_CONNECTIONS_PER_BACKEND,
            r.no_key_policy == NoKeyPolicy::FirstBackend,
    {
        PoolOptions {
            distribution: DistributionKind::Random,
            hash: HasherKind::Md5,
            cooloff_timeout_ms: DEFAULT_COOLOFF_TIMEOUT_MS,
            timeout_ms: DEFAULT_TIMEOUT_MS,
            connections_per_backend: DEFAULT_CONNECTIONS_PER_BACKEND,
            no_key_policy: NoKeyPolicy::FirstBackend,
        }
    }
}

} // verus!
