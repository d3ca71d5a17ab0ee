use synchrotron::conf::{
    parse_distribution, parse_hash, parse_no_key_policy, parse_route_type, parse_u64_dec,
    DistributionKind, PoolOptions,
};
use synchrotron::errors::{BackendFailure, ProtocolError};
use synchrotron::hasher::HasherKind;
use synchrotron::listener::{
    pipeline_turn, take_batch, validate_protocol, validate_routing, CLIENT_BATCH_LIMIT,
};
use synchrotron::message::Message;
use synchrotron::pool::NoKeyPolicy;
use synchrotron::queue::MessageQueue;
use synchrotron::router::{compose_response, plan_route, PoolRole, RouterPolicy};
use synchrotron::warden::Warden;

fn bulk(s: &str) -> Message {
    Message::Bulk(s.as_bytes().to_vec())
}

fn cmd(args: &[&str]) -> Message {
    Message::Array(args.iter().map(|a| bulk(a)).collect())
}

#[test]
fn queue_drains_only_the_ready_prefix_in_order() {
    let mut q = MessageQueue::new();
    let s1 = q.reserve(2);
    let s2 = q.reserve(2);
    assert_eq!(s1, 0);
    assert_eq!(s2, 2);
    // the second batch finishes first: nothing may reach the client yet
    q.fill_batch(s2, vec![bulk("r3"), bulk("r4")]);
    assert_eq!(q.drain_ready(), vec![]);
    // the first batch lands: everything drains, in request order
    q.fill_batch(s1, vec![bulk("r1"), bulk("r2")]);
    assert_eq!(
        q.drain_ready(),
        vec![bulk("r1"), bulk("r2"), bulk("r3"), bulk("r4")]
    );
    assert_eq!(q.drain_ready(), vec![]);
}

#[test]
fn pipeline_turn_writes_the_drained_encodings() {
    let mut q = MessageQueue::new();
    let s1 = q.reserve(1);
    let s2 = q.reserve(1);
    // the later request resolves first: no bytes leave
    let out = pipeline_turn(&mut q, s2, vec![bulk("second")]);
    assert_eq!(out, b"");
    // the earlier one resolves: both drain, in order
    let out = pipeline_turn(&mut q, s1, vec![Message::Simple(b"first".to_vec())]);
    assert_eq!(out, b"+first\r\n$6\r\nsecond\r\n");
}

#[test]
fn warden_accepts_nothing_after_close() {
    let mut w = Warden::new(3000);
    for _ in 0..50 {
        w.increment();
    }
    assert!(w.accepting());
    w.close(1000);
    assert!(!w.accepting());
    assert!(!w.drained());
    assert!(!w.deadline_expired(3999));
    for _ in 0..50 {
        w.decrement();
    }
    assert!(w.drained());
    assert!(w.deadline_expired(4000));
}

#[test]
fn fixed_route_goes_to_default_alone() {
    let batch = vec![cmd(&["GET", "a"])];
    let plan = plan_route(RouterPolicy::Fixed, &batch);
    assert_eq!(plan.primary, PoolRole::Default);
    assert!(plan.secondary.is_none());
}

#[test]
fn warmup_copies_only_writes_to_cold() {
    let batch = vec![
        cmd(&["SET", "x", "9"]),
        cmd(&["GET", "x"]),
        cmd(&["DEL", "y"]),
    ];
    let plan = plan_route(RouterPolicy::Warmup, &batch);
    assert_eq!(plan.primary, PoolRole::Warm);
    let (role, msgs) = plan.secondary.unwrap();
    assert_eq!(role, PoolRole::Cold);
    assert_eq!(msgs, vec![cmd(&["SET", "x", "9"]), cmd(&["DEL", "y"])]);
}

#[test]
fn shadow_duplicates_whole_batch() {
    let batch = vec![cmd(&["GET", "y"]), cmd(&["SET", "z", "1"])];
    let plan = plan_route(RouterPolicy::Shadow, &batch);
    assert_eq!(plan.primary, PoolRole::Default);
    let (role, msgs) = plan.secondary.unwrap();
    assert_eq!(role, PoolRole::Shadow);
    assert_eq!(msgs, batch);
}

#[test]
fn shadow_failure_never_reaches_the_client() {
    let primary = vec![bulk("value")];
    let r = compose_response(primary, Some(Err(BackendFailure::Io)));
    assert_eq!(r, vec![bulk("value")]);
}

#[test]
fn cold_pool_replies_are_discarded() {
    let primary = vec![Message::Simple(b"OK".to_vec())];
    let r = compose_response(
        primary,
        Some(Ok(vec![Message::Error(b"ERR cold".to_vec())])),
    );
    assert_eq!(r, vec![Message::Simple(b"OK".to_vec())]);
}

#[test]
fn protocol_must_be_redis() {
    assert!(validate_protocol("redis").is_ok());
    assert!(validate_protocol("Redis").is_ok());
    assert!(validate_protocol("memcached").is_err());
}

#[test]
fn routing_requires_its_pools() {
    let pools = vec!["default".to_string(), "shadow".to_string()];
    assert!(validate_routing(RouterPolicy::Fixed, &pools).is_ok());
    assert!(validate_routing(RouterPolicy::Shadow, &pools).is_ok());
    assert!(validate_routing(RouterPolicy::Warmup, &pools).is_err());
    let warm_pools = vec!["warm".to_string(), "cold".to_string()];
    assert!(validate_routing(RouterPolicy::Warmup, &warm_pools).is_ok());
    assert!(validate_routing(RouterPolicy::Fixed, &warm_pools).is_err());
}

#[test]
fn batches_cap_at_the_limit() {
    let mut pending: Vec<Message> = (0..130).map(|i| cmd(&["GET", &format!("k{}", i)])).collect();
    let batch = take_batch(&mut pending);
    assert_eq!(batch.len(), CLIENT_BATCH_LIMIT);
    assert_eq!(pending.len(), 2);
    assert_eq!(batch[0], cmd(&["GET", "k0"]));
    assert_eq!(pending[0], cmd(&["GET", "k128"]));
    let rest = take_batch(&mut pending);
    assert_eq!(rest.len(), 2);
    assert!(pending.is_empty());
}

#[test]
fn client_closed_is_silent() {
    assert!(ProtocolError::Empty.client_closed());
    assert!(!ProtocolError::Malformed.client_closed());
    assert!(!ProtocolError::Interrupted.client_closed());
}

#[test]
fn option_values_parse_or_reject() {
    assert_eq!(parse_distribution("random"), Some(DistributionKind::Random));
    assert_eq!(parse_distribution("modulo"), Some(DistributionKind::Modulo));
    assert_eq!(parse_distribution("ketama"), None);
    assert_eq!(parse_hash("md5"), Some(HasherKind::Md5));
    assert_eq!(parse_hash("sha1"), None);
    assert_eq!(
        parse_no_key_policy("first_backend"),
        Some(NoKeyPolicy::FirstBackend)
    );
    assert_eq!(parse_no_key_policy("broadcast"), Some(NoKeyPolicy::Broadcast));
    assert_eq!(parse_no_key_policy("drop"), None);
    assert_eq!(parse_route_type("fixed"), Some(RouterPolicy::Fixed));
    assert_eq!(parse_route_type("warmup"), Some(RouterPolicy::Warmup));
    assert_eq!(parse_route_type("shadow"), Some(RouterPolicy::Shadow));
    assert_eq!(parse_route_type("mirror"), None);
}

#[test]
fn numeric_options_parse_exactly() {
    assert_eq!(parse_u64_dec(b"2000"), Some(2000));
    assert_eq!(parse_u64_dec(b"0"), Some(0));
    assert_eq!(parse_u64_dec(b"18446744073709551615"), Some(u64::MAX));
    assert_eq!(parse_u64_dec(b"18446744073709551616"), None);
    assert_eq!(parse_u64_dec(b""), None);
    assert_eq!(parse_u64_dec(b"12a"), None);
    assert_eq!(parse_u64_dec(b"-5"), None);
}

#[test]
fn pool_option_defaults_match_the_schema() {
    let o = PoolOptions::defaults();
    assert_eq!(o.distribution, DistributionKind::Random);
    assert_eq!(o.hash, HasherKind::Md5);
    assert_eq!(o.cooloff_timeout_ms, 10000);
    assert_eq!(o.timeout_ms, 1000);
    assert_eq!(o.connections_per_backend, 1);
    assert_eq!(o.no_key_policy, NoKeyPolicy::FirstBackend);
}
