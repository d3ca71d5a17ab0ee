use synchrotron::distributor::{
    configure_distributor, AnyDistributor, BackendDescriptor, Distributor, ModuloDistributor,
    RandomDistributor,
};
use synchrotron::hasher::{hash_key, HasherKind};

fn descriptors(idxs: &[usize]) -> Vec<BackendDescriptor> {
    idxs.iter().map(|i| BackendDescriptor::new(*i)).collect()
}

#[test]
fn descriptor_carries_slot() {
    assert_eq!(BackendDescriptor::new(5).idx, 5);
}

#[test]
fn modulo_chooses_by_remainder() {
    let mut d = ModuloDistributor::new();
    d.seed(descriptors(&[0, 1, 2]));
    assert_eq!(d.select(0), 0);
    assert_eq!(d.select(1), 1);
    assert_eq!(d.select(5), 2);
    assert_eq!(d.select(7), 1);
}

#[test]
fn modulo_returns_descriptor_slot_not_position() {
    // seeded with slots 2 and 5 only (say, the eligible subset): the answer
    // is the stable slot index, not the position in the seeded list
    let mut d = ModuloDistributor::new();
    d.seed(descriptors(&[2, 5]));
    assert_eq!(d.select(0), 2);
    assert_eq!(d.select(1), 5);
}

#[test]
fn modulo_routing_is_stable() {
    let mut d = ModuloDistributor::new();
    d.seed(descriptors(&[0, 1, 2, 3]));
    let point = hash_key(HasherKind::Md5, b"user:1001");
    let first = d.select(point);
    for _ in 0..10 {
        assert_eq!(d.select(hash_key(HasherKind::Md5, b"user:1001")), first);
    }
}

#[test]
fn random_stays_within_seeded() {
    let mut d = RandomDistributor::new();
    d.seed(descriptors(&[3, 7, 9]));
    for p in 0..50u64 {
        let slot = d.select(p);
        assert!(slot == 3 || slot == 7 || slot == 9);
    }
}

#[test]
fn configure_distributor_picks_kind() {
    match configure_distributor("modulo") {
        AnyDistributor::Modulo(_) => {}
        AnyDistributor::Random(_) => panic!("expected a modulo distributor"),
    }
    match configure_distributor("random") {
        AnyDistributor::Random(_) => {}
        AnyDistributor::Modulo(_) => panic!("expected a random distributor"),
    }
}

#[test]
fn md5_point_of_known_keys() {
    // md5("a") = 0cc175b9c0f1b6a831c399e269772661: the point is the first
    // 8 digest bytes read big-endian
    assert_eq!(hash_key(HasherKind::Md5, b"a"), 0x0cc175b9c0f1b6a8);
    // md5("") = d41d8cd98f00b204e9800998ecf8427e
    assert_eq!(hash_key(HasherKind::Md5, b""), 0xd41d8cd98f00b204);
}

#[test]
fn md5_is_deterministic() {
    let p1 = hash_key(HasherKind::Md5, b"some-key");
    let p2 = hash_key(HasherKind::Md5, b"some-key");
    assert_eq!(p1, p2);
    assert_ne!(hash_key(HasherKind::Md5, b"other-key"), p1);
}
