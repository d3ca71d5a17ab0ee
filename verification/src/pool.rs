//! The backend pool's batch logic: extract each request's routing keys,
//! fragment multi-key commands, group fragments by target backend in
//! original order, and reassemble the replies in the client's order.
//!
//! Everything here is pure decision logic over values; the daemon performs
//! the socket I/O between the steps.

use vstd::prelude::*;

use crate::ascii::{ascii_of, upper_bytes};
use crate::distributor::{BackendDescriptor, Distributor, descriptor_indices};
use crate::hasher::{HasherKind, hash_key, point_of};
use crate::message::{Message, clone_message, copy_bytes, encoding};
use crate::schema::{KeySchema, MergeKind, args_view, command_schema, fragment_command,
    fragment_name, merge_command_kind, merge_kind_of, request_args, schema_of, views_of};

verus! {

broadcast use vstd::seq::group_seq_axioms, vstd::std_specs::vec::group_vec_axioms;

/// Where a command without a routing key goes.
#[derive(Clone, Copy, PartialEq, Eq, Structural, Debug)]
pub enum NoKeyPolicy {
    /// To the first eligible backend in descriptor order.
    FirstBackend,
    /// To every eligible backend; the first backend's reply answers the
    /// client.
    Broadcast,
}

/// One routed fragment of a planned batch.
pub struct RoutedFragment {
    /// Index of the request in the client batch.
    pub req: usize,
    /// Index of this fragment within its request.
    pub frag: usize,
    /// Target backend slot.
    pub backend: usize,
    /// The sub-command sent to that backend.
    pub msg: Message,
}

/// A 64-bit point, truncated from the hasher's value (which already fits).
pub open spec fn point64(kind: HasherKind, key: Seq<u8>) -> u64 {
    point_of(kind, key) as u64
}

/// How many fragments a request becomes, under a no-key policy and
/// `n_elig` eligible backends.
pub open spec fn frag_count(m: Message, policy: NoKeyPolicy, n_elig: nat) -> nat {
    match args_view(m) {
        Some(args) => {
            if args.len() == 0 {
                1
            } else {
                let sch = schema_of(upper_bytes(args[0]));
                if sch is NoKey && policy is Broadcast {
                    n_elig
                } else if sch is MultiKey && args.len() >= 2 {
                    (args.len() - 1) as nat
                } else if sch is KeyValuePairs && args.len() >= 3 && args.len() % 2 == 1 {
                    ((args.len() - 1) / 2) as nat
                } else {
                    1
                }
            }
        },
        None => 1,
    }
}

/// The routing key of a request's `j`-th fragment, or `None` where the
/// fragment is placed positionally instead of by key.
pub open spec fn frag_key(m: Message, policy: NoKeyPolicy, n_elig: nat, j: int) -> Option<
    Seq<u8>,
> {
    match args_view(m) {
        Some(args) => {
            if args.len() == 0 {
                None
            } else {
                let sch = schema_of(upper_bytes(args[0]));
                if sch is NoKey {
                    None
                } else if sch is MultiKey && args.len() >= 2 {
                    Some(args[1 + j])
                } else if sch is KeyValuePairs && args.len() >= 3 && args.len() % 2 == 1 {
                    Some(args[1 + 2 * j])
                } else if args.len() >= 2 {
                    Some(args[1])
                } else {
                    None
                }
            }
        },
        None => None,
    }
}

/// What the `j`-th fragment of a request must be.  A request that is not
/// fragmented is forwarded byte-for-byte; a per-key fragment is a fresh
/// two- or three-bulk command for that key.
pub open spec fn frag_msg_ok(m: Message, policy: NoKeyPolicy, n_elig: nat, j: int, fm: Message) -> bool {
    match args_view(m) {
        Some(args) => {
            if args.len() == 0 {
                encoding(fm) == encoding(m)
            } else {
                let sch = schema_of(upper_bytes(args[0]));
                if sch is MultiKey && args.len() >= 2 {
                    &&& fm matches Message::Array(items)
                    &&& items@.len() == 2
                    &&& items@[0] is Bulk
                    &&& items@[1] is Bulk
                    &&& (items@[0]->Bulk_0)@ == fragment_name(upper_bytes(args[0]))
                    &&& (items@[1]->Bulk_0)@ == args[1 + j]
                } else if sch is KeyValuePairs && args.len() >= 3 && args.len() % 2 == 1 {
                    &&& fm matches Message::Array(items)
                    &&& items@.len() == 3
                    &&& items@[0] is Bulk
                    &&& items@[1] is Bulk
                    &&& items@[2] is Bulk
                    &&& (items@[0]->Bulk_0)@ == fragment_name(upper_bytes(args[0]))
                    &&& (items@[1]->Bulk_0)@ == args[1 + 2 * j]
                    &&& (items@[2]->Bulk_0)@ == args[2 + 2 * j]
                } else {
                    encoding(fm) == encoding(m)
                }
            }
        },
        None => encoding(fm) == encoding(m),
    }
}

/// The backend slot the `j`-th fragment of a request lands on, for a stable
/// distributor: by its key's hash point where it has a key, else
/// positionally — the first eligible backend, or the `j`-th for a
/// broadcast fan-out.
pub open spec fn frag_slot_stable<D: Distributor>(
    m: Message,
    policy: NoKeyPolicy,
    d: D,
    elig: Seq<usize>,
    kind: HasherKind,
    j: int,
) -> usize {
    match frag_key(m, policy, elig.len(), j) {
        Some(k) => d.chosen(point64(kind, k)),
        None => {
            if policy is Broadcast && broadcast_applies(m) {
                elig[j]
            } else {
                elig[0]
            }
        },
    }
}

/// Whether a request fans out under the broadcast no-key policy: it has
/// arguments and its command carries no key.
pub open spec fn broadcast_applies(m: Message) -> bool {
    match args_view(m) {
        Some(args) => args.len() > 0 && schema_of(upper_bytes(args[0])) is NoKey,
        None => false,
    }
}

/// The flat position where a request's fragments start: the fragment counts
/// of everything before it, summed.
pub open spec fn plan_offset(batch: Seq<Message>, policy: NoKeyPolicy, n_elig: nat, i: int) -> nat
    decreases i,
{
    if i <= 0 {
        0
    } else {
        plan_offset(batch, policy, n_elig, i - 1) + frag_count(batch[i - 1], policy, n_elig)
    }
}

/// Offsets grow with the request index.
pub proof fn lemma_plan_offset_mono(
    batch: Seq<Message>,
    policy: NoKeyPolicy,
    n_elig: nat,
    a: int,
    b: int,
)
    requires
        a <= b,
    ensures
        plan_offset(batch, policy, n_elig, a) <= plan_offset(batch, policy, n_elig, b),
    decreases b - a,
{
    if a < b {
        lemma_plan_offset_mono(batch, policy, n_elig, a, b - 1);
    }
}

/// A planned batch: the flat fragment list, grouped later by backend, and
/// the per-request start offsets into it.
pub struct BatchPlan {
    pub frags: Vec<RoutedFragment>,
    /// `starts[i]` is the flat position of request `i`'s first fragment;
    /// one extra entry at the end holds the total.
    pub starts: Vec<usize>,
}

/// Fragment `j` of the request at `base` is well formed in the flat list:
/// right position, right indices, the right sub-command, and a target among
/// the eligible slots.
pub open spec fn frag_entry_ok(
    m: Message,
    policy: NoKeyPolicy,
    elig: Seq<usize>,
    req_idx: int,
    base: int,
    frags: Seq<RoutedFragment>,
    j: int,
) -> bool {
    let p = base + j;
    &&& 0 <= p < frags.len()
    &&& frags[p].req == req_idx
    &&& frags[p].frag == j
    &&& frag_msg_ok(m, policy, elig.len(), j, frags[p].msg)
    &&& elig.contains(frags[p].backend)
}

/// Fragment `j` of the request at `base` went where the stable distributor
/// sends it.
pub open spec fn frag_backend_stable<D: Distributor>(
    m: Message,
    policy: NoKeyPolicy,
    d: D,
    elig: Seq<usize>,
    kind: HasherKind,
    base: int,
    frags: Seq<RoutedFragment>,
    j: int,
) -> bool {
    frags[base + j].backend == frag_slot_stable(m, policy, d, elig, kind, j)
}

/// The structural well-formedness of a plan against its batch: counts,
/// offsets, fragment indices and fragment messages all match the specs
/// above, and every fragment targets one of the eligible slots.
pub open spec fn plan_wf(
    batch: Seq<Message>,
    policy: NoKeyPolicy,
    elig: Seq<usize>,
    plan: BatchPlan,
) -> bool {
    &&& plan.frags@.len() == plan_offset(batch, policy, elig.len(), batch.len() as int)
    &&& plan.starts@.len() == batch.len() + 1
    &&& forall|i: int|
        0 <= i <= batch.len() ==> plan.starts@[i] == plan_offset(batch, policy, elig.len(), i)
    &&& forall|i: int, j: int|
        0 <= i < batch.len() && 0 <= j < frag_count(batch[i], policy, elig.len())
            ==> #[trigger] frag_entry_ok(
            batch[i],
            policy,
            elig,
            i,
            plan_offset(batch, policy, elig.len(), i) as int,
            plan.frags@,
            j,
        )
}

/// The text of the error a request gets when its backend sub-batch failed.
pub open spec fn err_unavailable() -> Seq<u8> {
    ascii_of("ERR backend unavailable"@)
}

/// The text of the error every request gets when no backend is eligible.
pub open spec fn err_no_backend() -> Seq<u8> {
    ascii_of("ERR no backend available"@)
}

/// The `+OK` reply text.
pub open spec fn ok_text() -> Seq<u8> {
    ascii_of("OK"@)
}

/// Whether a reply is the deterministic backend-unavailable error.
pub open spec fn is_unavailable_error(out: Message) -> bool {
    out matches Message::Error(e) && e@ == err_unavailable()
}

/// Clamps a mathematical integer into the 64-bit signed range.
pub open spec fn clamp_i64(x: int) -> i64 {
    if x > i64::MAX {
        i64::MAX
    } else if x < i64::MIN {
        i64::MIN
    } else {
        x as i64
    }
}

/// The saturating sum of a sequence of integer replies, accumulated in
/// order; meaningful where every reply is an integer.
pub open spec fn sum_ints(got: Seq<Message>) -> i64
    decreases got,
{
    if got.len() == 0 {
        0
    } else {
        clamp_i64(sum_ints(got.drop_last()) + got.last()->Integer_0)
    }
}

/// The first reply that is not an integer, where one exists.
pub open spec fn first_not_integer(got: Seq<Message>) -> int
    decreases got,
{
    if got.len() == 0 {
        0
    } else if !(got[0] is Integer) {
        0
    } else {
        1 + first_not_integer(got.drop_first())
    }
}

/// The first error reply, where one exists.
pub open spec fn first_error(got: Seq<Message>) -> int
    decreases got,
{
    if got.len() == 0 {
        0
    } else if got[0] is Error {
        0
    } else {
        1 + first_error(got.drop_first())
    }
}

/// Saturating 64-bit signed addition.
pub fn sat_add_i64(a: i64, b: i64) -> (r: i64)
    ensures
        r == clamp_i64(a + b),
{
    if b >= 0 {
        if a <= i64::MAX - b {
            a + b
        } else {
            i64::MAX
        }
    } else {
        if a >= i64::MIN - b {
            a + b
        } else {
            i64::MIN
        }
    }
}

/// The deterministic error reply for a request whose backend failed.
pub fn unavailable_reply() -> (r: Message)
    ensures
        is_unavailable_error(r),
{
    let e = vstd::slice::slice_to_vec("ERR backend unavailable".as_bytes());
    proof {
        reveal_strlit("ERR backend unavailable");
        assert("ERR backend unavailable".is_ascii());
        assert(e@ =~= err_unavailable());
    }
    Message::Error(e)
}

/// One `-ERR no backend available` reply per request, for a batch that
/// arrives while the pool has no eligible backend.
pub fn no_backend_replies(n: usize) -> (r: Vec<Message>)
    ensures
        r@.len() == n,
        forall|i: int|
            0 <= i < n ==> (#[trigger] r@[i] matches Message::Error(e) && e@
                == err_no_backend()),
{
    let mut r: Vec<Message> = Vec::new();
    let mut i: usize = 0;
    while i < n
        invariant
            i <= n,
            r@.len() == i,
            forall|k: int|
                0 <= k < i ==> (#[trigger] r@[k] matches Message::Error(e) && e@
                    == err_no_backend()),
        decreases n - i,
    {
        let e = vstd::slice::slice_to_vec("ERR no backend available".as_bytes());
        proof {
            reveal_strlit("ERR no backend available");
            assert("ERR no backend available".is_ascii());
            assert(e@ =~= err_no_backend());
        }
        r.push(Message::Error(e));
        i += 1;
    }
    r
}

/// The `+OK` reply.
pub fn ok_reply() -> (r: Message)
    ensures
        r matches Message::Simple(s) && s@ == ok_text(),
{
    let s = vstd::slice::slice_to_vec("OK".as_bytes());
    proof {
        reveal_strlit("OK");
        assert("OK".is_ascii());
        assert(s@ =~= ok_text());
    }
    Message::Simple(s)
}

/// The reply a request gets from the replies of its fragments.  A missing
/// fragment reply — a failed sub-batch — turns the whole request into the
/// deterministic backend-unavailable error, never into silence, so a batch
/// always answers with exactly one reply per request.  Otherwise a gathered
/// multi-key command reassembles in key order; a summed one adds its
/// integer replies; a key-value write answers `+OK` unless a fragment
/// errs; everything else answers with its single fragment's reply — for a
/// broadcast, the first backend's in descriptor order.
pub open spec fn merged_ok(
    m: Message,
    policy: NoKeyPolicy,
    n_elig: nat,
    replies: Seq<Option<Message>>,
    out: Message,
) -> bool {
    if exists|j: int| 0 <= j < replies.len() && replies[j] is None {
        is_unavailable_error(out)
    } else {
        merged_ready_ok(m, policy, n_elig, Seq::new(replies.len(), |j: int| replies[j]->Some_0), out)
    }
}

/// The slots of the backends that may take traffic at time `now`, in
/// ascending descriptor order: exactly the backends not masked by cool-off.
pub fn eligible_slots(backends: &Vec<crate::backend::BackendHealth>, now: u64) -> (r: Vec<usize>)
    ensures
        forall|k: int|
            0 <= k < r@.len() ==> r@[k] < backends@.len() && backends@[r@[k] as int].spec_eligible(
                now,
            ),
        forall|k1: int, k2: int| 0 <= k1 < k2 < r@.len() ==> r@[k1] < r@[k2],
        forall|i: int|
            0 <= i < backends@.len() && backends@[i].spec_eligible(now) ==> r@.contains(i as usize),
{
    let n = backends.len();
    let mut r: Vec<usize> = Vec::new();
    let mut i: usize = 0;
    while i < n
        invariant
            i <= n,
            n == backends@.len(),
            forall|k: int|
                0 <= k < r@.len() ==> r@[k] < i && backends@[r@[k] as int].spec_eligible(now),
            forall|k1: int, k2: int| 0 <= k1 < k2 < r@.len() ==> r@[k1] < r@[k2],
            forall|j: int|
                0 <= j < i && backends@[j].spec_eligible(now) ==> r@.contains(j as usize),
        decreases n - i,
    {
        if backends[i].is_eligible(now) {
            let ghost r0 = r@;
            r.push(i);
            proof {
                assert(r@[r0.len() as int] == i);
                assert forall|j: int|
                    0 <= j < i + 1 && backends@[j].spec_eligible(now) implies r@.contains(
                    j as usize,
                ) by {
                    if j < i {
                        let k = choose|k: int| 0 <= k < r0.len() && r0[k] == j as usize;
                        assert(r@[k] == j as usize);
                    } else {
                        assert(r@[r0.len() as int] == j as usize);
                    }
                }
            }
        }
        i += 1;
    }
    r
}

/// Descriptors carrying the given slots, in order, for seeding a
/// distributor.
pub fn descriptors_for(slots: &Vec<usize>) -> (r: Vec<BackendDescriptor>)
    ensures
        descriptor_indices(r@) == slots@,
{
    let n = slots.len();
    let mut r: Vec<BackendDescriptor> = Vec::new();
    let mut i: usize = 0;
    while i < n
        invariant
            i <= n,
            n == slots@.len(),
            r@.len() == i,
            forall|k: int| 0 <= k < i ==> r@[k].idx == slots@[k],
        decreases n - i,
    {
        r.push(BackendDescriptor::new(slots[i]));
        i += 1;
    }
    proof {
        assert(descriptor_indices(r@) =~= slots@);
    }
    r
}

/// Routes one key: hash to a point, then let the distributor pick a slot.
/// With a stable distributor the slot is a pure function of the seeded
/// state and the key — routing the same key again lands on the same slot.
pub fn route_key<D: Distributor>(d: &D, kind: HasherKind, key: &[u8]) -> (slot: usize)
    requires
        d.seeded().len() > 0,
    ensures
        d.seeded().contains(slot),
        d.is_stable() ==> slot == d.chosen(point64(kind, key@)),
{
    let point = hash_key(kind, key);
    d.select(point)
}

/// Distributor stability: two modulo distributors seeded with the same
/// slots send any point — hence any key — to the same slot.
pub proof fn lemma_modulo_stability(
    d1: crate::distributor::ModuloDistributor,
    d2: crate::distributor::ModuloDistributor,
    point: u64,
)
    requires
        d1.seeded() == d2.seeded(),
        d1.seeded().len() > 0,
    ensures
        d1.chosen(point) == d2.chosen(point),
{
}

/// Plans one request: appends its fragments, each bound to a backend slot.
#[verifier::loop_isolation(false)]
fn plan_request<D: Distributor>(
    m: &Message,
    req_idx: usize,
    policy: NoKeyPolicy,
    kind: HasherKind,
    d: &D,
    elig: &Vec<usize>,
    out: &mut Vec<RoutedFragment>,
)
    requires
        d.seeded() == elig@,
        elig@.len() > 0,
    ensures
        final(out)@.len() == old(out)@.len() + frag_count(*m, policy, elig@.len()),
        forall|p: int| 0 <= p < old(out)@.len() ==> final(out)@[p] == old(out)@[p],
        forall|j: int|
            0 <= j < frag_count(*m, policy, elig@.len()) ==> #[trigger] frag_entry_ok(
                *m,
                policy,
                elig@,
                req_idx as int,
                old(out)@.len() as int,
                final(out)@,
                j,
            ),
        d.is_stable() ==> forall|j: int|
            0 <= j < frag_count(*m, policy, elig@.len()) ==> #[trigger] frag_backend_stable(
                *m,
                policy,
                *d,
                elig@,
                kind,
                old(out)@.len() as int,
                final(out)@,
                j,
            ),
{
    let ghost base = out@.len() as int;
    let ghost n_elig = elig@.len();
    match request_args(m) {
        None => {
            out.push(
                RoutedFragment { req: req_idx, frag: 0, backend: elig[0], msg: clone_message(m) },
            );
            proof {
                assert(elig@.contains(elig@[0]));
                assert(frag_entry_ok(*m, policy, elig@, req_idx as int, base, out@, 0));
                assert(frag_backend_stable(*m, policy, *d, elig@, kind, base, out@, 0));
            }
        },
        Some(args) => {
            let ghost sargs = args_view(*m)->Some_0;
            proof {
                assert(views_of(args@) == sargs);
                assert forall|k: int| 0 <= k < args@.len() implies args@[k]@ == sargs[k] by {
                    assert(views_of(args@)[k] == args@[k]@);
                }
            }
            if args.len() == 0 {
                out.push(
                    RoutedFragment {
                        req: req_idx,
                        frag: 0,
                        backend: elig[0],
                        msg: clone_message(m),
                    },
                );
                proof {
                    assert(elig@.contains(elig@[0]));
                    assert(frag_entry_ok(*m, policy, elig@, req_idx as int, base, out@, 0));
                    assert(frag_backend_stable(*m, policy, *d, elig@, kind, base, out@, 0));
                }
            } else {
                let schema = command_schema(args[0].as_slice());
                proof {
                    assert(upper_bytes(args@[0]@) == upper_bytes(sargs[0]));
                }
                if schema == KeySchema::NoKey && policy == NoKeyPolicy::Broadcast {
                    let ne = elig.len();
                    let mut j: usize = 0;
                    while j < ne
                        invariant
                            j <= ne,
                            ne == n_elig,
                            out@.len() == base + j,
                            forall|p: int| 0 <= p < base ==> out@[p] == old(out)@[p],
                            forall|k: int|
                                0 <= k < j ==> #[trigger] frag_entry_ok(
                                    *m,
                                    policy,
                                    elig@,
                                    req_idx as int,
                                    base,
                                    out@,
                                    k,
                                ),
                            d.is_stable() ==> forall|k: int|
                                0 <= k < j ==> #[trigger] frag_backend_stable(
                                    *m,
                                    policy,
                                    *d,
                                    elig@,
                                    kind,
                                    base,
                                    out@,
                                    k,
                                ),
                        decreases ne - j,
                    {
                        let ghost out0 = out@;
                        out.push(
                            RoutedFragment {
                                req: req_idx,
                                frag: j,
                                backend: elig[j],
                                msg: clone_message(m),
                            },
                        );
                        proof {
                            assert(elig@.contains(elig@[j as int]));
                            assert(frag_entry_ok(
                                *m,
                                policy,
                                elig@,
                                req_idx as int,
                                base,
                                out@,
                                j as int,
                            ));
                            if d.is_stable() {
                                assert(frag_backend_stable(
                                    *m,
                                    policy,
                                    *d,
                                    elig@,
                                    kind,
                                    base,
                                    out@,
                                    j as int,
                                ));
                            }
                            assert forall|k: int| 0 <= k < j implies #[trigger] frag_entry_ok(
                                *m,
                                policy,
                                elig@,
                                req_idx as int,
                                base,
                                out@,
                                k,
                            ) by {
                                assert(out@[base + k] == out0[base + k]);
                                assert(frag_entry_ok(
                                    *m,
                                    policy,
                                    elig@,
                                    req_idx as int,
                                    base,
                                    out0,
                                    k,
                                ));
                            }
                            if d.is_stable() {
                                assert forall|k: int|
                                    0 <= k < j implies #[trigger] frag_backend_stable(
                                    *m,
                                    policy,
                                    *d,
                                    elig@,
                                    kind,
                                    base,
                                    out@,
                                    k,
                                ) by {
                                    assert(out@[base + k] == out0[base + k]);
                                    assert(frag_backend_stable(
                                        *m,
                                        policy,
                                        *d,
                                        elig@,
                                        kind,
                                        base,
                                        out0,
                                        k,
                                    ));
                                }
                            }
                        }
                        j += 1;
                    }
                    proof {
                        assert(frag_count(*m, policy, n_elig) == n_elig);
                    }
                } else if schema == KeySchema::MultiKey && args.len() >= 2 {
                    let nk = args.len() - 1;
                    let mut j: usize = 0;
                    while j < nk
                        invariant
                            j <= nk,
                            nk == args@.len() - 1,
                            out@.len() == base + j,
                            forall|p: int| 0 <= p < base ==> out@[p] == old(out)@[p],
                            forall|k: int|
                                0 <= k < j ==> #[trigger] frag_entry_ok(
                                    *m,
                                    policy,
                                    elig@,
                                    req_idx as int,
                                    base,
                                    out@,
                                    k,
                                ),
                            d.is_stable() ==> forall|k: int|
                                0 <= k < j ==> #[trigger] frag_backend_stable(
                                    *m,
                                    policy,
                                    *d,
                                    elig@,
                                    kind,
                                    base,
                                    out@,
                                    k,
                                ),
                        decreases nk - j,
                    {
                        let mut items: Vec<Message> = Vec::new();
                        items.push(Message::Bulk(fragment_command(args[0].as_slice())));
                        items.push(Message::Bulk(copy_bytes(&args[1 + j])));
                        let fm = Message::Array(items);
                        let slot = route_key(d, kind, args[1 + j].as_slice());
                        proof {
                            assert(frag_msg_ok(*m, policy, n_elig, j as int, fm));
                            assert(frag_key(*m, policy, n_elig, j as int) == Some(sargs[1 + j]));
                        }
                        let ghost out0 = out@;
                        out.push(RoutedFragment { req: req_idx, frag: j, backend: slot, msg: fm });
                        proof {
                            assert(frag_entry_ok(
                                *m,
                                policy,
                                elig@,
                                req_idx as int,
                                base,
                                out@,
                                j as int,
                            ));
                            if d.is_stable() {
                                assert(frag_backend_stable(
                                    *m,
                                    policy,
                                    *d,
                                    elig@,
                                    kind,
                                    base,
                                    out@,
                                    j as int,
                                ));
                            }
                            assert forall|k: int| 0 <= k < j implies #[trigger] frag_entry_ok(
                                *m,
                                policy,
                                elig@,
                                req_idx as int,
                                base,
                                out@,
                                k,
                            ) by {
                                assert(out@[base + k] == out0[base + k]);
                                assert(frag_entry_ok(
                                    *m,
                                    policy,
                                    elig@,
                                    req_idx as int,
                                    base,
                                    out0,
                                    k,
                                ));
                            }
                            if d.is_stable() {
                                assert forall|k: int|
                                    0 <= k < j implies #[trigger] frag_backend_stable(
                                    *m,
                                    policy,
                                    *d,
                                    elig@,
                                    kind,
                                    base,
                                    out@,
                                    k,
                                ) by {
                                    assert(out@[base + k] == out0[base + k]);
                                    assert(frag_backend_stable(
                                        *m,
                                        policy,
                                        *d,
                                        elig@,
                                        kind,
                                        base,
                                        out0,
                                        k,
                                    ));
                                }
                            }
                        }
                        j += 1;
                    }
                } else if schema == KeySchema::KeyValuePairs && args.len() >= 3 && args.len() % 2
                    == 1 {
                    let nk = (args.len() - 1) / 2;
                    let mut j: usize = 0;
                    while j < nk
                        invariant
                            j <= nk,
                            nk == (args@.len() - 1) / 2,
                            args@.len() >= 3,
                            out@.len() == base + j,
                            forall|p: int| 0 <= p < base ==> out@[p] == old(out)@[p],
                            forall|k: int|
                                0 <= k < j ==> #[trigger] frag_entry_ok(
                                    *m,
                                    policy,
                                    elig@,
                                    req_idx as int,
                                    base,
                                    out@,
                                    k,
                                ),
                            d.is_stable() ==> forall|k: int|
                                0 <= k < j ==> #[trigger] frag_backend_stable(
                                    *m,
                                    policy,
                                    *d,
                                    elig@,
                                    kind,
                                    base,
                                    out@,
                                    k,
                                ),
                        decreases nk - j,
                    {
                        let mut items: Vec<Message> = Vec::new();
                        items.push(Message::Bulk(fragment_command(args[0].as_slice())));
                        items.push(Message::Bulk(copy_bytes(&args[1 + 2 * j])));
                        items.push(Message::Bulk(copy_bytes(&args[2 + 2 * j])));
                        let fm = Message::Array(items);
                        let slot = route_key(d, kind, args[1 + 2 * j].as_slice());
                        proof {
                            assert(frag_msg_ok(*m, policy, n_elig, j as int, fm));
                            assert(frag_key(*m, policy, n_elig, j as int) == Some(
                                sargs[1 + 2 * j],
                            ));
                        }
                        let ghost out0 = out@;
                        out.push(RoutedFragment { req: req_idx, frag: j, backend: slot, msg: fm });
                        proof {
                            assert(frag_entry_ok(
                                *m,
                                policy,
                                elig@,
                                req_idx as int,
                                base,
                                out@,
                                j as int,
                            ));
                            if d.is_stable() {
                                assert(frag_backend_stable(
                                    *m,
                                    policy,
                                    *d,
                                    elig@,
                                    kind,
                                    base,
                                    out@,
                                    j as int,
                                ));
                            }
                            assert forall|k: int| 0 <= k < j implies #[trigger] frag_entry_ok(
                                *m,
                                policy,
                                elig@,
                                req_idx as int,
                                base,
                                out@,
                                k,
                            ) by {
                                assert(out@[base + k] == out0[base + k]);
                                assert(frag_entry_ok(
                                    *m,
                                    policy,
                                    elig@,
                                    req_idx as int,
                                    base,
                                    out0,
                                    k,
                                ));
                            }
                            if d.is_stable() {
                                assert forall|k: int|
                                    0 <= k < j implies #[trigger] frag_backend_stable(
                                    *m,
                                    policy,
                                    *d,
                                    elig@,
                                    kind,
                                    base,
                                    out@,
                                    k,
                                ) by {
                                    assert(out@[base + k] == out0[base + k]);
                                    assert(frag_backend_stable(
                                        *m,
                                        policy,
                                        *d,
                                        elig@,
                                        kind,
                                        base,
                                        out0,
                                        k,
                                    ));
                                }
                            }
                        }
                        j += 1;
                    }
                } else if schema != KeySchema::NoKey && args.len() >= 2 {
                    let slot = route_key(d, kind, args[1].as_slice());
                    out.push(
                        RoutedFragment {
                            req: req_idx,
                            frag: 0,
                            backend: slot,
                            msg: clone_message(m),
                        },
                    );
                    proof {
                        assert(frag_key(*m, policy, n_elig, 0) == Some(sargs[1]));
                        assert(frag_entry_ok(*m, policy, elig@, req_idx as int, base, out@, 0));
                        if d.is_stable() {
                            assert(frag_backend_stable(*m, policy, *d, elig@, kind, base, out@, 0));
                        }
                    }
                } else {
                    out.push(
                        RoutedFragment {
                            req: req_idx,
                            frag: 0,
                            backend: elig[0],
                            msg: clone_message(m),
                        },
                    );
                    proof {
                        assert(elig@.contains(elig@[0]));
                        assert(frag_entry_ok(*m, policy, elig@, req_idx as int, base, out@, 0));
                        assert(frag_backend_stable(*m, policy, *d, elig@, kind, base, out@, 0));
                    }
                }
            }
        },
    }
}

/// Plans a whole batch: for each request in order, its fragments, each
/// routed to an eligible backend; plus the per-request offsets into the
/// flat fragment list.
#[verifier::loop_isolation(false)]
pub fn plan_batch<D: Distributor>(
    requests: &Vec<Message>,
    policy: NoKeyPolicy,
    kind: HasherKind,
    d: &D,
    elig: &Vec<usize>,
) -> (plan: BatchPlan)
    requires
        d.seeded() == elig@,
        elig@.len() > 0,
    ensures
        plan_wf(requests@, policy, elig@, plan),
        d.is_stable() ==> forall|i: int, j: int|
            0 <= i < requests@.len() && 0 <= j < frag_count(requests@[i], policy, elig@.len())
                ==> #[trigger] frag_backend_stable(
                requests@[i],
                policy,
                *d,
                elig@,
                kind,
                plan_offset(requests@, policy, elig@.len(), i) as int,
                plan.frags@,
                j,
            ),
{
    let n = requests.len();
    let mut frags: Vec<RoutedFragment> = Vec::new();
    let mut starts: Vec<usize> = Vec::new();
    let mut i: usize = 0;
    while i < n
        invariant
            i <= n,
            n == requests@.len(),
            starts@.len() == i,
            frags@.len() == plan_offset(requests@, policy, elig@.len(), i as int),
            forall|k: int|
                0 <= k < i ==> starts@[k] == plan_offset(requests@, policy, elig@.len(), k),
            forall|i2: int, j: int|
                0 <= i2 < i && 0 <= j < frag_count(requests@[i2], policy, elig@.len())
                    ==> #[trigger] frag_entry_ok(
                    requests@[i2],
                    policy,
                    elig@,
                    i2,
                    plan_offset(requests@, policy, elig@.len(), i2) as int,
                    frags@,
                    j,
                ),
            d.is_stable() ==> forall|i2: int, j: int|
                0 <= i2 < i && 0 <= j < frag_count(requests@[i2], policy, elig@.len())
                    ==> #[trigger] frag_backend_stable(
                    requests@[i2],
                    policy,
                    *d,
                    elig@,
                    kind,
                    plan_offset(requests@, policy, elig@.len(), i2) as int,
                    frags@,
                    j,
                ),
        decreases n - i,
    {
        let at = frags.len();
        proof {
            assert(at == plan_offset(requests@, policy, elig@.len(), i as int));
        }
        starts.push(at);
        let ghost frags0 = frags@;
        plan_request(&requests[i], i, policy, kind, d, elig, &mut frags);
        proof {
            assert(plan_offset(requests@, policy, elig@.len(), (i + 1) as int) == at
                + frag_count(requests@[i as int], policy, elig@.len()));
            assert forall|i2: int, j: int|
                0 <= i2 < i + 1 && 0 <= j < frag_count(
                    requests@[i2],
                    policy,
                    elig@.len(),
                ) implies #[trigger] frag_entry_ok(
                requests@[i2],
                policy,
                elig@,
                i2,
                plan_offset(requests@, policy, elig@.len(), i2) as int,
                frags@,
                j,
            ) by {
                let off = plan_offset(requests@, policy, elig@.len(), i2) as int;
                if i2 < i {
                    assert(frag_entry_ok(requests@[i2], policy, elig@, i2, off, frags0, j));
                    lemma_plan_offset_mono(requests@, policy, elig@.len(), i2 + 1, i as int);
                    assert(off + j < frags0.len());
                    assert(frags@[off + j] == frags0[off + j]);
                }
            }
            if d.is_stable() {
                assert forall|i2: int, j: int|
                    0 <= i2 < i + 1 && 0 <= j < frag_count(
                        requests@[i2],
                        policy,
                        elig@.len(),
                    ) implies #[trigger] frag_backend_stable(
                    requests@[i2],
                    policy,
                    *d,
                    elig@,
                    kind,
                    plan_offset(requests@, policy, elig@.len(), i2) as int,
                    frags@,
                    j,
                ) by {
                    let off = plan_offset(requests@, policy, elig@.len(), i2) as int;
                    if i2 < i {
                        assert(frag_backend_stable(
                            requests@[i2],
                            policy,
                            *d,
                            elig@,
                            kind,
                            off,
                            frags0,
                            j,
                        ));
                        lemma_plan_offset_mono(requests@, policy, elig@.len(), i2 + 1, i as int);
                        assert(off + j < frags0.len());
                        assert(frags@[off + j] == frags0[off + j]);
                    }
                }
            }
        }
        i += 1;
    }
    starts.push(frags.len());
    BatchPlan { frags, starts }
}


/// A vector with its elements in reverse order.
pub fn reverse_vec<T>(v: Vec<T>) -> (r: Vec<T>)
    ensures
        r@ == v@.reverse(),
{
    let ghost v0 = v@;
    let mut v = v;
    let mut r: Vec<T> = Vec::new();
    while v.len() > 0
        invariant
            v@ =~= v0.subrange(0, v@.len() as int),
            r@.len() == v0.len() - v@.len(),
            forall|k: int| 0 <= k < r@.len() ==> r@[k] == v0[v0.len() - 1 - k],
        decreases v@.len(),
    {
        let x = v.pop().unwrap();
        proof {
            assert(x == v0[v@.len() as int]);
            assert(v@ =~= v0.subrange(0, v@.len() as int));
        }
        r.push(x);
    }
    proof {
        assert(r@ =~= v0.reverse());
    }
    r
}

/// Merges the flat fragment replies of a planned batch back into exactly
/// one reply per request, in the client's original order.
#[verifier::loop_isolation(false)]
pub fn merge_replies(
    requests: &Vec<Message>,
    policy: NoKeyPolicy,
    n_elig: usize,
    starts: &Vec<usize>,
    flat: Vec<Option<Message>>,
) -> (r: Vec<Message>)
    requires
        n_elig > 0,
        starts@.len() == requests@.len() + 1,
        forall|i: int|
            0 <= i <= requests@.len() ==> starts@[i] == plan_offset(
                requests@,
                policy,
                n_elig as nat,
                i,
            ),
        flat@.len() == plan_offset(requests@, policy, n_elig as nat, requests@.len() as int),
    ensures
        r@.len() == requests@.len(),
        forall|i: int|
            0 <= i < requests@.len() ==> #[trigger] merged_ok(
                requests@[i],
                policy,
                n_elig as nat,
                flat@.subrange(starts@[i] as int, starts@[i + 1] as int),
                r@[i],
            ),
{
    let ghost flat0 = flat@;
    let n = requests.len();
    let mut rest = reverse_vec(flat);
    let mut out: Vec<Message> = Vec::new();
    let mut i: usize = 0;
    while i < n
        invariant
            i <= n,
            out@.len() == i,
            rest@.len() == flat0.len() - starts@[i as int],
            forall|k: int| 0 <= k < rest@.len() ==> rest@[k] == flat0[flat0.len() - 1 - k],
            forall|i2: int|
                0 <= i2 < i ==> #[trigger] merged_ok(
                    requests@[i2],
                    policy,
                    n_elig as nat,
                    flat0.subrange(starts@[i2] as int, starts@[i2 + 1] as int),
                    out@[i2],
                ),
        decreases n - i,
    {
        let start = starts[i];
        let end = starts[i + 1];
        proof {
            lemma_plan_offset_mono(requests@, policy, n_elig as nat, i as int, (i + 1) as int);
            lemma_plan_offset_mono(
                requests@,
                policy,
                n_elig as nat,
                (i + 1) as int,
                requests@.len() as int,
            );
            assert(start <= end);
            assert(end <= flat0.len());
        }
        let count = end - start;
        let ghost slice = flat0.subrange(start as int, end as int);
        // collect this request's fragment replies, in fragment order
        let mut got_opt: Vec<Option<Message>> = Vec::new();
        let mut j: usize = 0;
        while j < count
            invariant
                j <= count,
                got_opt@.len() == j,
                rest@.len() == flat0.len() - start - j,
                forall|k: int| 0 <= k < rest@.len() ==> rest@[k] == flat0[flat0.len() - 1 - k],
                forall|k: int| 0 <= k < j ==> got_opt@[k] == slice[k],
            decreases count - j,
        {
            let x = rest.pop().unwrap();
            proof {
                assert(x == flat0[start + j]);
                assert(slice[j as int] == flat0[start + j]);
            }
            got_opt.push(x);
            j += 1;
        }
        proof {
            assert(got_opt@ =~= slice);
        }
        let reply = merge_one(&requests[i], policy, n_elig, got_opt);
        out.push(reply);
        i += 1;
    }
    out
}

/// Merges the fragment replies of one request into its single reply.
#[verifier::loop_isolation(false)]
fn merge_one(m: &Message, policy: NoKeyPolicy, n_elig: usize, got_opt: Vec<Option<Message>>) -> (r:
    Message)
    requires
        got_opt@.len() == frag_count(*m, policy, n_elig as nat),
        n_elig > 0,
    ensures
        merged_ok(*m, policy, n_elig as nat, got_opt@, r),
{
    let ghost opts = got_opt@;
    let count = got_opt.len();
    // any missing fragment reply fails the whole request, deterministically
    let mut any_missing = false;
    let mut j: usize = 0;
    while j < count
        invariant
            j <= count,
            count == opts.len(),
            got_opt@ == opts,
            any_missing == exists|k: int| 0 <= k < j && opts[k] is None,
        decreases count - j,
    {
        if got_opt[j].is_none() {
            any_missing = true;
        }
        j += 1;
    }
    if any_missing {
        return unavailable_reply();
    }
    let ghost got_spec = Seq::new(opts.len(), |k: int| opts[k]->Some_0);
    // unwrap the replies, keeping fragment order
    let mut rest = reverse_vec(got_opt);
    let mut got: Vec<Message> = Vec::new();
    while rest.len() > 0
        invariant
            got@.len() + rest@.len() == opts.len(),
            forall|k: int| 0 <= k < rest@.len() ==> rest@[k] == opts[opts.len() - 1 - k],
            forall|k: int| 0 <= k < got@.len() ==> got@[k] == got_spec[k],
        decreases rest@.len(),
    {
        let x = rest.pop().unwrap();
        proof {
            assert(x == opts[got@.len() as int]);
            assert(!(opts[got@.len() as int] is None));
        }
        match x {
            Some(v) => {
                got.push(v);
            },
            None => {
                proof {
                    assert(false);
                }
            },
        }
    }
    proof {
        assert(got@ =~= got_spec);
    }
    merge_ready(m, policy, n_elig, got)
}

/// Merges the unwrapped replies of one request whose fragments all
/// answered.
#[verifier::loop_isolation(false)]
fn merge_ready(m: &Message, policy: NoKeyPolicy, n_elig: usize, got: Vec<Message>) -> (r: Message)
    requires
        got@.len() == frag_count(*m, policy, n_elig as nat),
        n_elig > 0,
    ensures
        merged_ready_ok(*m, policy, n_elig as nat, got@, r),
{
    let ghost g = got@;
    match request_args(m) {
        None => {
            let mut rest = reverse_vec(got);
            let r = rest.pop().unwrap();
            proof {
                assert(r == g[0]);
            }
            r
        },
        Some(args) => {
            let ghost sargs = args_view(*m)->Some_0;
            proof {
                assert(views_of(args@) == sargs);
                assert forall|k: int| 0 <= k < args@.len() implies args@[k]@ == sargs[k] by {
                    assert(views_of(args@)[k] == args@[k]@);
                }
            }
            if args.len() == 0 {
                let mut rest = reverse_vec(got);
                let r = rest.pop().unwrap();
                proof {
                    assert(r == g[0]);
                }
                r
            } else {
                let schema = command_schema(args[0].as_slice());
                let mkind = merge_command_kind(args[0].as_slice());
                proof {
                    assert(upper_bytes(args@[0]@) == upper_bytes(sargs[0]));
                }
                if schema == KeySchema::MultiKey && args.len() >= 2 && mkind == MergeKind::Gather {
                    Message::Array(got)
                } else if schema == KeySchema::MultiKey && args.len() >= 2 {
                    // saturating sum of integer replies, else the first
                    // non-integer reply in key order
                    let count = got.len();
                    let mut all_int = true;
                    let mut j: usize = 0;
                    while j < count
                        invariant
                            j <= count,
                            count == g.len(),
                            got@ == g,
                            all_int == forall|k: int| 0 <= k < j ==> g[k] is Integer,
                        decreases count - j,
                    {
                        let is_int = match &got[j] {
                            Message::Integer(_) => true,
                            _ => false,
                        };
                        if !is_int {
                            all_int = false;
                            proof {
                                assert(!(g[j as int] is Integer));
                            }
                        }
                        j += 1;
                    }
                    if all_int {
                        let mut acc: i64 = 0;
                        let mut j: usize = 0;
                        while j < count
                            invariant
                                j <= count,
                                count == g.len(),
                                got@ == g,
                                forall|k: int| 0 <= k < g.len() ==> g[k] is Integer,
                                acc == sum_ints(g.subrange(0, j as int)),
                            decreases count - j,
                        {
                            let v = match &got[j] {
                                Message::Integer(v) => *v,
                                _ => 0,
                            };
                            acc = sat_add_i64(acc, v);
                            proof {
                                assert(g.subrange(0, (j + 1) as int).drop_last() =~= g.subrange(
                                    0,
                                    j as int,
                                ));
                            }
                            j += 1;
                        }
                        proof {
                            assert(g.subrange(0, count as int) =~= g);
                        }
                        Message::Integer(acc)
                    } else {
                        let mut rest = reverse_vec(got);
                        let mut j: usize = 0;
                        loop
                            invariant
                                j < count,
                                count == g.len(),
                                rest@.len() == g.len() - j,
                                forall|k: int| 0 <= k < rest@.len() ==> rest@[k] == g[g.len() - 1
                                    - k],
                                forall|k: int| 0 <= k < j ==> g[k] is Integer,
                                !(forall|k: int| 0 <= k < g.len() ==> g[k] is Integer),
                            decreases rest@.len(),
                        {
                            let x = rest.pop().unwrap();
                            proof {
                                assert(x == g[j as int]);
                            }
                            let is_int = match &x {
                                Message::Integer(_) => true,
                                _ => false,
                            };
                            if !is_int {
                                proof {
                                    lemma_first_not_integer(g, j as int);
                                }
                                return x;
                            }
                            proof {
                                assert(j + 1 < g.len()) by {
                                    if j + 1 == g.len() {
                                        assert(forall|k: int|
                                            0 <= k < g.len() ==> g[k] is Integer);
                                    }
                                }
                            }
                            j += 1;
                        }
                    }
                } else if schema == KeySchema::KeyValuePairs && args.len() >= 3 && args.len() % 2
                    == 1 {
                    let count = got.len();
                    let mut any_err = false;
                    let mut j: usize = 0;
                    while j < count
                        invariant
                            j <= count,
                            count == g.len(),
                            got@ == g,
                            any_err == exists|k: int| 0 <= k < j && g[k] is Error,
                        decreases count - j,
                    {
                        let is_err = match &got[j] {
                            Message::Error(_) => true,
                            _ => false,
                        };
                        if is_err {
                            any_err = true;
                        }
                        j += 1;
                    }
                    if any_err {
                        let mut rest = reverse_vec(got);
                        let mut j: usize = 0;
                        loop
                            invariant
                                j < count,
                                count == g.len(),
                                rest@.len() == g.len() - j,
                                forall|k: int| 0 <= k < rest@.len() ==> rest@[k] == g[g.len() - 1
                                    - k],
                                forall|k: int| 0 <= k < j ==> !(g[k] is Error),
                                exists|k: int| 0 <= k < g.len() && g[k] is Error,
                            decreases rest@.len(),
                        {
                            let x = rest.pop().unwrap();
                            proof {
                                assert(x == g[j as int]);
                            }
                            let is_err = match &x {
                                Message::Error(_) => true,
                                _ => false,
                            };
                            if is_err {
                                proof {
                                    lemma_first_error(g, j as int);
                                }
                                return x;
                            }
                            proof {
                                assert(j + 1 < g.len()) by {
                                    if j + 1 == g.len() {
                                        let k = choose|k: int|
                                            0 <= k < g.len() && g[k] is Error;
                                        assert(!(g[k] is Error));
                                    }
                                }
                            }
                            j += 1;
                        }
                    } else {
                        ok_reply()
                    }
                } else {
                    let mut rest = reverse_vec(got);
                    let r = rest.pop().unwrap();
                    proof {
                        assert(r == g[0]);
                    }
                    r
                }
            }
        },
    }
}

/// What a request's reply must be once every fragment answered.
pub open spec fn merged_ready_ok(
    m: Message,
    policy: NoKeyPolicy,
    n_elig: nat,
    got: Seq<Message>,
    out: Message,
) -> bool {
    match args_view(m) {
        Some(args) => {
            if args.len() == 0 {
                out == got[0]
            } else {
                let sch = schema_of(upper_bytes(args[0]));
                let mk = merge_kind_of(upper_bytes(args[0]));
                if sch is MultiKey && args.len() >= 2 && mk is Gather {
                    out matches Message::Array(items) && items@ == got
                } else if sch is MultiKey && args.len() >= 2 {
                    if forall|j: int| 0 <= j < got.len() ==> got[j] is Integer {
                        out == Message::Integer(sum_ints(got))
                    } else {
                        out == got[first_not_integer(got)]
                    }
                } else if sch is KeyValuePairs && args.len() >= 3 && args.len() % 2 == 1 {
                    if exists|j: int| 0 <= j < got.len() && got[j] is Error {
                        out == got[first_error(got)]
                    } else {
                        out matches Message::Simple(s) && s@ == ok_text()
                    }
                } else {
                    out == got[0]
                }
            }
        },
        None => out == got[0],
    }
}

/// A prefix of integers followed by a non-integer pins down
/// `first_not_integer`.
proof fn lemma_first_not_integer(g: Seq<Message>, j: int)
    requires
        0 <= j < g.len(),
        forall|k: int| 0 <= k < j ==> g[k] is Integer,
        !(g[j] is Integer),
    ensures
        first_not_integer(g) == j,
    decreases j,
{
    if j > 0 {
        lemma_first_not_integer(g.drop_first(), j - 1);
    }
}

/// A prefix free of errors followed by an error pins down `first_error`.
proof fn lemma_first_error(g: Seq<Message>, j: int)
    requires
        0 <= j < g.len(),
        forall|k: int| 0 <= k < j ==> !(g[k] is Error),
        g[j] is Error,
    ensures
        first_error(g) == j,
    decreases j,
{
    if j > 0 {
        lemma_first_error(g.drop_first(), j - 1);
    }
}


/// The requests bound for one backend: the flat plan positions of its
/// fragments, ascending, and the sub-commands themselves in the same
/// order — the original per-client order, so pipelining to that backend is
/// preserved.
pub struct SubBatch {
    /// The backend slot this sub-batch goes to.
    pub backend: usize,
    /// Flat plan positions of the fragments, ascending.
    pub positions: Vec<usize>,
    /// The sub-commands, aligned with `positions`.
    pub msgs: Vec<Message>,
}

/// Well-formedness of a grouping over a flat plan of `total` fragments:
/// positions are in range and ascending within a group, aligned with the
/// messages, and no position sits in two groups.
pub open spec fn groups_wf(groups: Seq<SubBatch>, total: nat) -> bool {
    &&& forall|b: int, k: int|
        0 <= b < groups.len() && 0 <= k < groups[b].positions@.len()
            ==> #[trigger] groups[b].positions@[k] < total
    &&& forall|b: int|
        0 <= b < groups.len() ==> #[trigger] groups[b].msgs@.len()
            == groups[b].positions@.len()
    &&& forall|b: int, k1: int, k2: int|
        0 <= b < groups.len() && 0 <= k1 < k2 < groups[b].positions@.len()
            ==> #[trigger] groups[b].positions@[k1] < #[trigger] groups[b].positions@[k2]
    &&& forall|b1: int, k1: int, b2: int, k2: int|
        0 <= b1 < groups.len() && 0 <= k1 < groups[b1].positions@.len() && 0 <= b2
            < groups.len() && 0 <= k2 < groups[b2].positions@.len() && b1 != b2
            ==> #[trigger] groups[b1].positions@[k1] != #[trigger] groups[b2].positions@[k2]
}

/// The fragment at flat position `p` sits in its backend's sub-batch, with
/// its message.
pub open spec fn frag_covered(groups: Seq<SubBatch>, frags: Seq<RoutedFragment>, p: int) -> bool {
    exists|k: int|
        {
            &&& 0 <= k < groups[frags[p].backend as int].positions@.len()
            &&& groups[frags[p].backend as int].positions@[k] == p
            &&& groups[frags[p].backend as int].msgs@[k] == frags[p].msg
        }
}

/// Groups a flat plan by target backend, preserving the original order of
/// each backend's fragments, so each sub-batch pipelines to its backend as
/// one ordered write.
#[verifier::loop_isolation(false)]
pub fn group_fragments(frags: Vec<RoutedFragment>, n_slots: usize) -> (groups: Vec<SubBatch>)
    requires
        forall|p: int| 0 <= p < frags@.len() ==> #[trigger] frags@[p].backend < n_slots,
    ensures
        groups@.len() == n_slots,
        forall|b: int| 0 <= b < n_slots ==> #[trigger] groups@[b].backend == b,
        groups_wf(groups@, frags@.len()),
        forall|p: int| 0 <= p < frags@.len() ==> #[trigger] frag_covered(groups@, frags@, p),
{
    let ghost frags0 = frags@;
    let total = frags.len();
    let mut groups: Vec<SubBatch> = Vec::new();
    let mut b: usize = 0;
    while b < n_slots
        invariant
            b <= n_slots,
            groups@.len() == b,
            forall|b2: int|
                0 <= b2 < b ==> #[trigger] groups@[b2].backend == b2
                    && groups@[b2].positions@.len() == 0 && groups@[b2].msgs@.len() == 0,
        decreases n_slots - b,
    {
        groups.push(SubBatch { backend: b, positions: Vec::new(), msgs: Vec::new() });
        b += 1;
    }
    proof {
        assert forall|b2: int|
            0 <= b2 < n_slots implies groups@[b2].positions@.len() == 0 && groups@[b2].msgs@.len()
                == 0 by {
            assert(groups@[b2].backend == b2);
        }
    }
    let mut rev = reverse_vec(frags);
    let mut p: usize = 0;
    while rev.len() > 0
        invariant
            total == frags0.len(),
            p == frags0.len() - rev@.len(),
            forall|k: int| 0 <= k < rev@.len() ==> rev@[k] == frags0[frags0.len() - 1 - k],
            groups@.len() == n_slots,
            forall|b2: int| 0 <= b2 < n_slots ==> #[trigger] groups@[b2].backend == b2,
            forall|b2: int|
                0 <= b2 < n_slots ==> #[trigger] groups@[b2].msgs@.len()
                    == groups@[b2].positions@.len(),
            forall|b2: int, k: int|
                0 <= b2 < n_slots && 0 <= k < groups@[b2].positions@.len()
                    ==> #[trigger] groups@[b2].positions@[k] < p,
            forall|b2: int, k1: int, k2: int|
                0 <= b2 < n_slots && 0 <= k1 < k2 < groups@[b2].positions@.len()
                    ==> #[trigger] groups@[b2].positions@[k1] < #[trigger] groups@[
                    b2
                ].positions@[k2],
            forall|b2: int, k: int|
                0 <= b2 < n_slots && 0 <= k < groups@[b2].positions@.len()
                    ==> frags0[#[trigger] groups@[b2].positions@[k] as int].backend == b2,
            forall|p2: int| 0 <= p2 < p ==> #[trigger] frag_covered(groups@, frags0, p2),
        decreases rev@.len(),
    {
        let f = rev.pop().unwrap();
        proof {
            assert(f == frags0[p as int]);
        }
        let fb = f.backend;
        let ghost groups_before = groups@;
        let mut tmp = SubBatch { backend: fb, positions: Vec::new(), msgs: Vec::new() };
        core::mem::swap(&mut groups[fb], &mut tmp);
        tmp.positions.push(p);
        tmp.msgs.push(f.msg);
        core::mem::swap(&mut groups[fb], &mut tmp);
        proof {
            assert(groups@[fb as int].positions@ == groups_before[fb as int].positions@.push(p));
            assert(groups@[fb as int].msgs@ == groups_before[fb as int].msgs@.push(
                frags0[p as int].msg,
            ));
            assert forall|b2: int|
                0 <= b2 < n_slots && b2 != fb implies groups@[b2] == groups_before[b2] by {}
            assert forall|p2: int| 0 <= p2 < p + 1 implies #[trigger] frag_covered(
                groups@,
                frags0,
                p2,
            ) by {
                let tb = frags0[p2].backend as int;
                if p2 < p {
                    assert(frag_covered(groups_before, frags0, p2));
                    let k = choose|k: int|
                        {
                            &&& 0 <= k < groups_before[tb].positions@.len()
                            &&& groups_before[tb].positions@[k] == p2
                            &&& groups_before[tb].msgs@[k] == frags0[p2].msg
                        };
                    assert(groups@[tb].positions@[k] == p2);
                    assert(groups@[tb].msgs@[k] == frags0[p2].msg);
                } else {
                    let k = groups_before[fb as int].positions@.len() as int;
                    assert(groups@[fb as int].positions@[k] == p2);
                    assert(groups@[fb as int].msgs@[k] == frags0[p2].msg);
                }
            }
        }
        p += 1;
    }
    proof {
        assert forall|b1: int, k1: int, b2: int, k2: int|
            0 <= b1 < groups@.len() && 0 <= k1 < groups@[b1].positions@.len() && 0 <= b2
                < groups@.len() && 0 <= k2 < groups@[b2].positions@.len() && b1
                != b2 implies #[trigger] groups@[b1].positions@[k1] != #[trigger] groups@[
            b2
        ].positions@[k2] by {
            assert(frags0[groups@[b1].positions@[k1] as int].backend == b1);
            assert(frags0[groups@[b2].positions@[k2] as int].backend == b2);
        }
    }
    groups
}

/// What one fragment's reply slot holds after scattering: its sub-batch's
/// reply at the same rank, or nothing where the sub-batch failed or
/// answered with the wrong number of replies.
pub open spec fn scatter_expected(g: SubBatch, res: Option<Vec<Message>>, k: int) -> Option<
    Message,
> {
    match res {
        Some(v) => if v@.len() == g.positions@.len() {
            Some(v@[k])
        } else {
            None
        },
        None => None,
    }
}

/// Scatters per-backend sub-batch results back into the flat reply vector,
/// one slot per planned fragment.  A failed sub-batch leaves its fragments'
/// slots empty, which the merge turns into deterministic errors.
#[verifier::loop_isolation(false)]
pub fn scatter_replies(
    groups: &Vec<SubBatch>,
    results: Vec<Option<Vec<Message>>>,
    total: usize,
) -> (flat: Vec<Option<Message>>)
    requires
        results@.len() == groups@.len(),
        groups_wf(groups@, total as nat),
    ensures
        flat@.len() == total,
        forall|b: int, k: int|
            0 <= b < groups@.len() && 0 <= k < groups@[b].positions@.len() ==> flat@[#[trigger] groups@[
                b
            ].positions@[k] as int] == scatter_expected(groups@[b], results@[b], k),
{
    let ghost res0 = results@;
    let mut flat: Vec<Option<Message>> = Vec::new();
    let mut z: usize = 0;
    while z < total
        invariant
            z <= total,
            flat@.len() == z,
            forall|q: int| 0 <= q < z ==> flat@[q] is None,
        decreases total - z,
    {
        flat.push(None);
        z += 1;
    }
    let nb = results.len();
    let mut rev = reverse_vec(results);
    let mut b: usize = 0;
    while b < nb
        invariant
            b <= nb,
            nb == res0.len(),
            rev@.len() == nb - b,
            forall|k: int| 0 <= k < rev@.len() ==> rev@[k] == res0[res0.len() - 1 - k],
            flat@.len() == total,
            forall|b2: int, k: int|
                0 <= b2 < b && 0 <= k < groups@[b2].positions@.len() ==> flat@[#[trigger] groups@[
                    b2
                ].positions@[k] as int] == scatter_expected(groups@[b2], res0[b2], k),
            forall|b2: int, k: int|
                b <= b2 < nb && 0 <= k < groups@[b2].positions@.len() ==> flat@[#[trigger] groups@[
                    b2
                ].positions@[k] as int] is None,
        decreases nb - b,
    {
        let res_b = rev.pop().unwrap();
        proof {
            assert(res_b == res0[b as int]);
        }
        let g = &groups[b];
        match res_b {
            Some(v) => {
                if v.len() == g.positions.len() {
                    let nk = v.len();
                    let mut vrev = reverse_vec(v);
                    let ghost v0 = vrev@.reverse();
                    let mut k: usize = 0;
                    while k < nk
                        invariant
                            k <= nk,
                            nk == v0.len(),
                            nk == groups@[b as int].positions@.len(),
                            vrev@.len() == nk - k,
                            forall|q: int|
                                0 <= q < vrev@.len() ==> vrev@[q] == v0[v0.len() - 1 - q],
                            res0[b as int] matches Some(vv) && vv@ == v0,
                            flat@.len() == total,
                            forall|b2: int, k2: int|
                                0 <= b2 < b && 0 <= k2 < groups@[b2].positions@.len() ==> flat@[#[trigger] groups@[
                                    b2
                                ].positions@[k2] as int] == scatter_expected(
                                    groups@[b2],
                                    res0[b2],
                                    k2,
                                ),
                            forall|k2: int|
                                0 <= k2 < k ==> flat@[#[trigger] groups@[
                                    b as int
                                ].positions@[k2] as int] == Some(v0[k2]),
                            forall|k2: int|
                                k <= k2 < nk ==> flat@[#[trigger] groups@[
                                    b as int
                                ].positions@[k2] as int] is None,
                            forall|b2: int, k2: int|
                                b < b2 < nb && 0 <= k2 < groups@[b2].positions@.len() ==> flat@[#[trigger] groups@[
                                    b2
                                ].positions@[k2] as int] is None,
                        decreases nk - k,
                    {
                        let x = vrev.pop().unwrap();
                        proof {
                            assert(x == v0[k as int]);
                        }
                        let pos = g.positions[k];
                        flat[pos] = Some(x);
                        k += 1;
                    }
                }
            },
            None => {
            },
        }
        b += 1;
    }
    flat
}

/// Fragment reassembly: a gathered multi-key command — `MGET k1…kM` —
/// whose fragments all answered merges into an array of length M whose
/// element `i` is the reply its `i`-th key's fragment brought back.
pub proof fn lemma_mget_reassembly(
    m: Message,
    policy: NoKeyPolicy,
    n_elig: nat,
    replies: Seq<Option<Message>>,
    out: Message,
)
    requires
        args_view(m) matches Some(args) && args.len() >= 2 && schema_of(
            upper_bytes(args[0]),
        ) is MultiKey && merge_kind_of(upper_bytes(args[0])) is Gather,
        replies.len() == frag_count(m, policy, n_elig),
        forall|j: int| 0 <= j < replies.len() ==> #[trigger] replies[j] is Some,
        merged_ok(m, policy, n_elig, replies, out),
    ensures
        out matches Message::Array(items) && {
            &&& items@.len() == args_view(m)->Some_0.len() - 1
            &&& forall|j: int|
                0 <= j < items@.len() ==> #[trigger] items@[j] == replies[j]->Some_0
        },
{
    assert(!(exists|j: int| 0 <= j < replies.len() && replies[j] is None));
    let got = Seq::new(replies.len(), |j: int| replies[j]->Some_0);
    assert(out matches Message::Array(items) && items@ == got);
}

} // verus!
