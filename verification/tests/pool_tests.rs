use std::collections::HashMap;

use synchrotron::backend::BackendHealth;
use synchrotron::distributor::{Distributor, ModuloDistributor};
use synchrotron::hasher::{hash_key, HasherKind};
use synchrotron::message::{encode_all, Message};
use synchrotron::pool::{
    descriptors_for, eligible_slots, group_fragments, merge_replies, no_backend_replies,
    plan_batch, scatter_replies, NoKeyPolicy,
};
use synchrotron::router::{compose_response, plan_route, PoolRole, RouterPolicy};

fn bulk(s: &str) -> Message {
    Message::Bulk(s.as_bytes().to_vec())
}

fn cmd(args: &[&str]) -> Message {
    Message::Array(args.iter().map(|a| bulk(a)).collect())
}

type Store = HashMap<Vec<u8>, Vec<u8>>;

/// A minimal in-memory Redis: enough command coverage to answer the
/// sub-batches the pool sends.
fn run_backend(store: &mut Store, msgs: &[Message]) -> Vec<Message> {
    let mut replies = Vec::new();
    for m in msgs {
        let args: Vec<Vec<u8>> = match m {
            Message::Array(items) => items
                .iter()
                .map(|it| match it {
                    Message::Bulk(b) => b.clone(),
                    _ => Vec::new(),
                })
                .collect(),
            Message::Inline(words) => words.clone(),
            _ => {
                replies.push(Message::Error(b"ERR bad request".to_vec()));
                continue;
            }
        };
        let name = String::from_utf8(args[0].clone()).unwrap().to_uppercase();
        let reply = match name.as_str() {
            "GET" => match store.get(&args[1]) {
                Some(v) => Message::Bulk(v.clone()),
                None => Message::Null,
            },
            "SET" => {
                store.insert(args[1].clone(), args[2].clone());
                Message::Simple(b"OK".to_vec())
            }
            "DEL" => {
                let mut n = 0i64;
                for k in &args[1..] {
                    if store.remove(k).is_some() {
                        n += 1;
                    }
                }
                Message::Integer(n)
            }
            "PING" => Message::Simple(b"PONG".to_vec()),
            _ => Message::Error(b"ERR unknown command".to_vec()),
        };
        replies.push(reply);
    }
    replies
}

/// Runs one batch through the full value-level pipeline: plan, group,
/// simulated backend I/O, scatter, merge.  Backends named in `dead` fail
/// their whole sub-batch, as a broken connection would.
fn run_batch(
    stores: &mut Vec<Store>,
    policy: NoKeyPolicy,
    requests: Vec<Message>,
    dead: &[usize],
) -> Vec<Message> {
    let n_backends = stores.len();
    let healths: Vec<BackendHealth> = (0..n_backends)
        .map(|_| BackendHealth::new(3, 1000, 2000))
        .collect();
    let elig = eligible_slots(&healths, 0);
    assert_eq!(elig.len(), n_backends);
    let mut d = ModuloDistributor::new();
    d.seed(descriptors_for(&elig));
    let plan = plan_batch(&requests, policy, HasherKind::Md5, &d, &elig);
    let starts = plan.starts.clone();
    let total = *starts.last().unwrap();
    let groups = group_fragments(plan.frags, n_backends);
    let mut results: Vec<Option<Vec<Message>>> = Vec::new();
    for b in 0..n_backends {
        if dead.contains(&b) {
            results.push(None);
        } else {
            results.push(Some(run_backend(&mut stores[b], &groups[b].msgs)));
        }
    }
    let flat = scatter_replies(&groups, results, total);
    merge_replies(&requests, policy, n_backends, &starts, flat)
}

/// The `nth` key (from a counted family) that the modulo distributor
/// sends to the wanted slot, out of two.
fn key_for_slot(want: usize, nth: usize) -> String {
    let mut seen = 0;
    for i in 0..1000 {
        let k = format!("key{}", i);
        if (hash_key(HasherKind::Md5, k.as_bytes()) % 2) as usize == want {
            if seen == nth {
                return k;
            }
            seen += 1;
        }
    }
    unreachable!();
}

#[test]
fn pipelined_writes_and_reads_answer_in_order() {
    let mut stores = vec![Store::new(), Store::new()];
    let requests = vec![
        cmd(&["SET", "a", "1"]),
        cmd(&["SET", "b", "2"]),
        cmd(&["GET", "a"]),
        cmd(&["GET", "b"]),
    ];
    let replies = run_batch(&mut stores, NoKeyPolicy::FirstBackend, requests, &[]);
    assert_eq!(
        encode_all(&replies),
        b"+OK\r\n+OK\r\n$1\r\n1\r\n$1\r\n2\r\n"
    );
}

#[test]
fn mget_reassembles_across_backends_in_key_order() {
    let k1 = key_for_slot(0, 0);
    let k2 = key_for_slot(1, 0);
    let k3 = key_for_slot(0, 1);
    let mut stores = vec![Store::new(), Store::new()];
    let setup = vec![
        cmd(&["SET", &k1, "v1"]),
        cmd(&["SET", &k2, "v2"]),
        cmd(&["SET", &k3, "v3"]),
    ];
    run_batch(&mut stores, NoKeyPolicy::FirstBackend, setup, &[]);
    let replies = run_batch(
        &mut stores,
        NoKeyPolicy::FirstBackend,
        vec![cmd(&["MGET", &k1, &k2, &k3])],
        &[],
    );
    assert_eq!(replies.len(), 1);
    assert_eq!(
        replies[0],
        Message::Array(vec![bulk("v1"), bulk("v2"), bulk("v3")])
    );
}

#[test]
fn dead_backend_mid_pipeline_still_answers_every_request() {
    let mut stores = vec![Store::new(), Store::new()];
    let requests: Vec<Message> = (0..100).map(|i| cmd(&["GET", &format!("k{}", i)])).collect();
    let replies = run_batch(&mut stores, NoKeyPolicy::FirstBackend, requests, &[1]);
    assert_eq!(replies.len(), 100);
    let mut dead_hits = 0;
    for (i, r) in replies.iter().enumerate() {
        let key = format!("k{}", i);
        let slot = (hash_key(HasherKind::Md5, key.as_bytes()) % 2) as usize;
        if slot == 1 {
            assert_eq!(r, &Message::Error(b"ERR backend unavailable".to_vec()));
            dead_hits += 1;
        } else {
            assert_eq!(r, &Message::Null);
        }
    }
    assert!(dead_hits > 0);
}

#[test]
fn mset_fragments_and_answers_ok() {
    let mut stores = vec![Store::new(), Store::new()];
    let replies = run_batch(
        &mut stores,
        NoKeyPolicy::FirstBackend,
        vec![
            cmd(&["MSET", "ka", "1", "kb", "2"]),
            cmd(&["GET", "ka"]),
            cmd(&["GET", "kb"]),
        ],
        &[],
    );
    assert_eq!(replies[0], Message::Simple(b"OK".to_vec()));
    assert_eq!(replies[1], bulk("1"));
    assert_eq!(replies[2], bulk("2"));
}

#[test]
fn del_sums_per_key_counts() {
    let mut stores = vec![Store::new(), Store::new()];
    run_batch(
        &mut stores,
        NoKeyPolicy::FirstBackend,
        vec![cmd(&["SET", "da", "1"]), cmd(&["SET", "db", "2"])],
        &[],
    );
    let replies = run_batch(
        &mut stores,
        NoKeyPolicy::FirstBackend,
        vec![cmd(&["DEL", "da", "db", "missing"])],
        &[],
    );
    assert_eq!(replies[0], Message::Integer(2));
}

#[test]
fn no_key_command_goes_to_first_backend() {
    let mut stores = vec![Store::new(), Store::new()];
    let replies = run_batch(
        &mut stores,
        NoKeyPolicy::FirstBackend,
        vec![cmd(&["PING"])],
        &[],
    );
    assert_eq!(replies[0], Message::Simple(b"PONG".to_vec()));
}

#[test]
fn broadcast_answers_with_first_backend_reply() {
    let mut stores = vec![Store::new(), Store::new(), Store::new()];
    let replies = run_batch(
        &mut stores,
        NoKeyPolicy::Broadcast,
        vec![cmd(&["PING"])],
        &[],
    );
    assert_eq!(replies.len(), 1);
    assert_eq!(replies[0], Message::Simple(b"PONG".to_vec()));
}

#[test]
fn no_eligible_backend_yields_deterministic_errors() {
    let replies = no_backend_replies(3);
    assert_eq!(replies.len(), 3);
    for r in &replies {
        assert_eq!(r, &Message::Error(b"ERR no backend available".to_vec()));
    }
}

#[test]
fn cooloff_masks_and_probe_restores() {
    let mut b = BackendHealth::new(3, 1000, 2000);
    assert!(b.is_eligible(0));
    b.record_failure(10);
    b.record_failure(20);
    assert!(b.is_eligible(30));
    b.record_failure(30);
    // third consecutive failure inside the window: cooling off until 2030
    assert!(!b.is_eligible(1000));
    assert!(!b.is_eligible(2029));
    assert!(b.is_eligible(2030));
    b.begin_probe(2030);
    assert!(b.is_eligible(2031));
    b.record_success();
    assert!(b.is_eligible(5000));
}

#[test]
fn cooled_backend_takes_no_traffic() {
    let mut healths = vec![
        BackendHealth::new(1, 1000, 5000),
        BackendHealth::new(1, 1000, 5000),
    ];
    healths[1].record_failure(0);
    let elig = eligible_slots(&healths, 100);
    assert_eq!(elig, vec![0]);
    let mut d = ModuloDistributor::new();
    d.seed(descriptors_for(&elig));
    let requests = vec![cmd(&["GET", "a"]), cmd(&["GET", "b"])];
    let plan = plan_batch(
        &requests,
        NoKeyPolicy::FirstBackend,
        HasherKind::Md5,
        &d,
        &elig,
    );
    for f in &plan.frags {
        assert_eq!(f.backend, 0);
    }
}

#[test]
fn probe_failure_reenters_cooloff() {
    let mut b = BackendHealth::new(1, 1000, 2000);
    b.record_failure(0);
    assert!(!b.is_eligible(100));
    b.begin_probe(2000);
    b.record_failure(2500);
    assert!(!b.is_eligible(3000));
    assert!(b.is_eligible(4500));
}

#[test]
fn warmup_write_reaches_the_cold_pool_and_warm_answers() {
    let mut warm_stores = vec![Store::new()];
    let mut cold_store = Store::new();
    let batch = vec![cmd(&["SET", "x", "9"]), cmd(&["GET", "x"])];
    let route = plan_route(RouterPolicy::Warmup, &batch);
    assert_eq!(route.primary, PoolRole::Warm);
    // the background copy runs against the cold backend; its replies vanish
    if let Some((role, copy)) = route.secondary {
        assert_eq!(role, PoolRole::Cold);
        let _ = run_backend(&mut cold_store, &copy);
    }
    let warm_replies = run_batch(&mut warm_stores, NoKeyPolicy::FirstBackend, batch, &[]);
    let client = compose_response(warm_replies, None);
    assert_eq!(client[0], Message::Simple(b"OK".to_vec()));
    assert_eq!(client[1], bulk("9"));
    // the cold pool saw the write too
    assert_eq!(cold_store.get(b"x".as_slice()), Some(&b"9".to_vec()));
}

#[test]
fn sum_merge_surfaces_the_first_non_integer_reply() {
    // a DEL fragment that answers with an error: the first such reply, in
    // key order, answers the client instead of a sum
    let mut stores = vec![Store::new()];
    let replies = run_batch(
        &mut stores,
        NoKeyPolicy::FirstBackend,
        vec![Message::Array(vec![
            bulk("DEL"),
            bulk("k1"),
            Message::Integer(7),
        ])],
        &[],
    );
    // the second fragment key is not a bulk in the backend's eyes, but the
    // proxy still answers exactly once for the request
    assert_eq!(replies.len(), 1);
}

#[test]
fn broadcast_with_a_dead_backend_fails_deterministically() {
    let mut stores = vec![Store::new(), Store::new()];
    let replies = run_batch(&mut stores, NoKeyPolicy::Broadcast, vec![cmd(&["PING"])], &[1]);
    assert_eq!(
        replies,
        vec![Message::Error(b"ERR backend unavailable".to_vec())]
    );
}

#[test]
fn short_subbatch_reply_counts_as_failure() {
    // a backend that answers with too few replies desynchronizes its whole
    // sub-batch: every fragment on it becomes the deterministic error
    let requests = vec![cmd(&["GET", "a"]), cmd(&["GET", "b"])];
    let healths = vec![BackendHealth::new(3, 1000, 2000)];
    let elig = eligible_slots(&healths, 0);
    let mut d = ModuloDistributor::new();
    d.seed(descriptors_for(&elig));
    let plan = plan_batch(
        &requests,
        NoKeyPolicy::FirstBackend,
        HasherKind::Md5,
        &d,
        &elig,
    );
    let starts = plan.starts.clone();
    let total = *starts.last().unwrap();
    let groups = group_fragments(plan.frags, 1);
    // one reply for two submitted fragments
    let results = vec![Some(vec![Message::Null])];
    let flat = scatter_replies(&groups, results, total);
    let replies = merge_replies(&requests, NoKeyPolicy::FirstBackend, 1, &starts, flat);
    assert_eq!(
        replies,
        vec![
            Message::Error(b"ERR backend unavailable".to_vec()),
            Message::Error(b"ERR backend unavailable".to_vec()),
        ]
    );
}
