//! Key distribution: maps a 64-bit point to one of the seeded backend slots.

use vstd::prelude::*;

use crate::ascii::str_eq;

verus! {

/// A placeholder for backends.  This lets the distributor avoid holding
/// references to the actual backends: it is seeded with descriptors and
/// answers with the stable slot index a descriptor carries.
pub struct BackendDescriptor {
    /// The backend's stable position in its pool's backend vector.
    pub idx: usize,
}

impl BackendDescriptor {
    pub fn new(idx: usize) -> (d: BackendDescriptor)
        ensures
            d.idx == idx,
    {
        BackendDescriptor { idx }
    }
}

/// The slot indices carried by a descriptor sequence, in order.
pub open spec fn descriptor_indices(ds: Seq<BackendDescriptor>) -> Seq<usize> {
    ds.map_values(|d: BackendDescriptor| d.idx)
}

/// Distributes items amongst a set of backends.
///
/// After being seeded with a set of backend descriptors, one of them can be
/// chosen by mapping a point amongst them: by modulo division, at random, or
/// by other schemes.  `select` always answers with one of the seeded slot
/// indices, and a stable distributor answers as the pure function `chosen`
/// of its seeded state and the point alone.
pub trait Distributor: Sized {
    /// The slot indices this distributor was last seeded with, in seeding
    /// order.
    spec fn seeded(&self) -> Seq<usize>;

    /// Whether `select` is a pure function of the seeded state and the
    /// point.  A random distributor is not stable; a modulo one is.
    spec fn is_stable(&self) -> bool;

    /// For a stable distributor, the slot `select` returns for a point.
    spec fn chosen(&self, point: u64) -> usize;

    /// Replaces the seeded descriptor set atomically from the caller's point
    /// of view; stability is fixed by the variant and does not change.
    fn seed(&mut self, backends: Vec<BackendDescriptor>)
        ensures
            final(self).seeded() == descriptor_indices(backends@),
            final(self).is_stable() == old(self).is_stable(),
    ;

    /// Chooses a backend slot for the given point.
    ///
    /// The answer is always one of the seeded slot indices, and for a stable
    /// distributor it is exactly `chosen(point)`.
    fn select(&self, point: u64) -> (slot: usize)
        requires
            self.seeded().len() > 0,
        ensures
            self.seeded().contains(slot),
            self.is_stable() ==> slot == self.chosen(point),
    ;
}

/// Provides a modulo'd distribution of requests: point `p` lands on the
/// seeded slot at position `p mod n`.
pub struct ModuloDistributor {
    /// The seeded slot indices, in seeding order.
    pub slots: Vec<usize>,
}

impl ModuloDistributor {
    pub fn new() -> (d: ModuloDistributor)
        ensures
            d.seeded() == Seq::<usize>::empty(),
            d.is_stable(),
    {
        let d = ModuloDistributor { slots: Vec::new() };
        proof {
            assert(d.seeded() =~= Seq::<usize>::empty());
        }
        d
    }
}

impl Distributor for ModuloDistributor {
    open spec fn seeded(&self) -> Seq<usize> {
        self.slots@
    }

    open spec fn is_stable(&self) -> bool {
        true
    }

    open spec fn chosen(&self, point: u64) -> usize {
        self.slots@[point as int % self.slots@.len() as int]
    }

    fn seed(&mut self, backends: Vec<BackendDescriptor>) {
        let slots = descriptor_index_vec(&backends);
        self.slots = slots;
    }

    fn select(&self, point: u64) -> (slot: usize) {
        let n = self.slots.len();
        let at = (point % (n as u64)) as usize;
        let slot = self.slots[at];
        proof {
            assert(self.seeded().contains(slot)) by {
                assert(self.seeded()[at as int] == slot);
            }
        }
        slot
    }
}

/// Provides a uniform-random distribution of requests: the point is ignored
/// and a seeded slot is drawn at random, for spray-all patterns and testing.
pub struct RandomDistributor {
    /// The seeded slot indices, in seeding order.
    pub slots: Vec<usize>,
}

impl RandomDistributor {
    pub fn new() -> (d: RandomDistributor)
        ensures
            d.seeded() == Seq::<usize>::empty(),
            !d.is_stable(),
    {
        let d = RandomDistributor { slots: Vec::new() };
        proof {
            assert(d.seeded() =~= Seq::<usize>::empty());
        }
        d
    }
}

/// Relies on `rand::random_range` over `0..n`: the result lies in the range,
/// the range is non-empty by the precondition (an empty range panics), and
/// the thread-local generator is safe to call from many tasks without a lock.
#[verifier::external_body]
fn pick_uniform(n: usize) -> (r: usize)
    requires
        n > 0,
    ensures
        r < n,
{
    rand::random_range(0..n)
}

impl Distributor for RandomDistributor {
    open spec fn seeded(&self) -> Seq<usize> {
        self.slots@
    }

    open spec fn is_stable(&self) -> bool {
        false
    }

    open spec fn chosen(&self, point: u64) -> usize {
        0
    }

    fn seed(&mut self, backends: Vec<BackendDescriptor>) {
        let slots = descriptor_index_vec(&backends);
        self.slots = slots;
    }

    fn select(&self, point: u64) -> (slot: usize) {
        let at = pick_uniform(self.slots.len());
        let slot = self.slots[at];
        proof {
            assert(self.seeded().contains(slot)) by {
                assert(self.seeded()[at as int] == slot);
            }
        }
        slot
    }
}

/// Collects the slot indices of a descriptor vector, in order.
fn descriptor_index_vec(backends: &Vec<BackendDescriptor>) -> (r: Vec<usize>)
    ensures
        r@ == descriptor_indices(backends@),
{
    let n = backends.len();
    let mut r: Vec<usize> = Vec::new();
    let mut i: usize = 0;
    while i < n
        invariant
            i <= n,
            n == backends@.len(),
            r@ =~= descriptor_indices(backends@.subrange(0, i as int)),
        decreases n - i,
    {
        r.push(backends[i].idx);
        proof {
            assert(r@ =~= descriptor_indices(backends@.subrange(0, (i + 1) as int)));
        }
        i += 1;
    }
    proof {
        assert(backends@.subrange(0, n as int) =~= backends@);
    }
    r
}

/// A distributor of whichever kind the configuration named.
pub enum AnyDistributor {
    Random(RandomDistributor),
    Modulo(ModuloDistributor),
}

impl Distributor for AnyDistributor {
    open spec fn seeded(&self) -> Seq<usize> {
        match self {
            AnyDistributor::Random(d) => d.seeded(),
            AnyDistributor::Modulo(d) => d.seeded(),
        }
    }

    open spec fn is_stable(&self) -> bool {
        match self {
            AnyDistributor::Random(d) => d.is_stable(),
            AnyDistributor::Modulo(d) => d.is_stable(),
        }
    }

    open spec fn chosen(&self, point: u64) -> usize {
        match self {
            AnyDistributor::Random(d) => d.chosen(point),
            AnyDistributor::Modulo(d) => d.chosen(point),
        }
    }

    fn seed(&mut self, backends: Vec<BackendDescriptor>) {
        match self {
            AnyDistributor::Random(d) => d.seed(backends),
            AnyDistributor::Modulo(d) => d.seed(backends),
        }
    }

    fn select(&self, point: u64) -> (slot: usize) {
        match self {
            AnyDistributor::Random(d) => d.select(point),
            AnyDistributor::Modulo(d) => d.select(point),
        }
    }
}

/// Builds a distributor of the named kind, freshly seeded with nothing.
///
/// The recognized kinds are `"random"` and `"modulo"`; an unrecognized kind
/// is rejected at configuration load before this is called.
pub fn configure_distributor(dist_type: &str) -> (d: AnyDistributor)
    requires
        dist_type@ == "random"@ || dist_type@ == "modulo"@,
    ensures
        d.seeded().len() == 0,
        dist_type@ == "random"@ ==> d is Random,
        dist_type@ == "modulo"@ ==> d is Modulo,
        d.is_stable() == (d is Modulo),
{
    proof {
        reveal_strlit("random");
        reveal_strlit("modulo");
        assert("random"@[0] == 'r' && "modulo"@[0] == 'm');
    }
    if str_eq(dist_type, "random") {
        AnyDistributor::Random(RandomDistributor::new())
    } else {
        AnyDistributor::Modulo(ModuloDistributor::new())
    }
}

} // verus!
