//! The scheduler's setup: parallelism, CPU pinning, and the deterministic
//! host shuffle. Hosts are shuffled once, from a seeded generator, before
//! they are assigned to workers; the shuffle randomizes load but, being a
//! pure function of the seed, never the observable simulation.

use vstd::prelude::*;
use rand::SeedableRng;
use rand::seq::SliceRandom;

verus! {

/// What a seeded shuffle makes of a host order.
pub uninterp spec fn shuffle_of(s: Seq<u32>, seed: u64) -> Seq<u32>;

/// Relies on rand_xoshiro's `Xoshiro256PlusPlus::seed_from_u64` and rand's
/// `SliceRandom::shuffle`: a Fisher-Yates pass driven by a generator that is
/// a pure function of the seed, so the result is a permutation of the input
/// determined by the input and the seed alone.
#[verifier::external_body]
fn shuffle_ids(v: &mut Vec<u32>, seed: u64)
    ensures
        final(v)@.to_multiset() == old(v)@.to_multiset(),
        final(v)@.len() == old(v)@.len(),
        final(v)@ == shuffle_of(old(v)@, seed),
{
    let mut rng = rand_xoshiro::Xoshiro256PlusPlus::seed_from_u64(seed);
    v.as_mut_slice().shuffle(&mut rng);
}

/// The identity order of `n` host ids: `0, 1, …, n-1`.
pub open spec fn host_ids(n: int) -> Seq<u32>
    decreases n,
{
    if n <= 0 {
        Seq::empty()
    } else {
        host_ids(n - 1).push((n - 1) as u32)
    }
}

/// Each id below `n` occurs exactly once in the identity order.
pub proof fn lemma_host_ids_counts(n: int)
    requires
        0 <= n <= u32::MAX,
    ensures
        host_ids(n).len() == n,
        forall|v: u32| host_ids(n).to_multiset().count(v) == if v < n {
            1nat
        } else {
            0nat
        },
    decreases n,
{
    broadcast use vstd::seq_lib::group_to_multiset_ensures;

    if n > 0 {
        lemma_host_ids_counts(n - 1);
    } else {
        assert(host_ids(0) =~= Seq::<u32>::empty());
        assert(forall|v: u32| host_ids(0).to_multiset().count(v) == 0nat);
    }
}

/// An order that visits every host exactly once.
pub open spec fn is_host_order(order: Seq<u32>, n: int) -> bool {
    order.to_multiset() == host_ids(n).to_multiset()
}

/// A host order is a permutation: as long as the host list, in bounds,
/// without repeats, and covering every host.
pub proof fn lemma_host_order_props(order: Seq<u32>, n: int)
    requires
        0 <= n <= u32::MAX,
        is_host_order(order, n),
    ensures
        order.len() == n,
        forall|p: int| 0 <= p < order.len() ==> (#[trigger] order[p]) < n,
        forall|p: int, q: int| 0 <= p < q < order.len() ==> order[p] != order[q],
        forall|v: u32| v < n ==> order.contains(v),
{
    broadcast use vstd::seq_lib::group_to_multiset_ensures;
    broadcast use vstd::multiset::group_multiset_axioms;

    lemma_host_ids_counts(n);
    assert(order.len() == order.to_multiset().len());
    assert(host_ids(n).len() == host_ids(n).to_multiset().len());
    assert forall|p: int| 0 <= p < order.len() implies (#[trigger] order[p]) < n by {
        assert(order.to_multiset().count(order[p]) > 0);
    }
    order.lemma_multiset_has_no_duplicates_conv();
    assert forall|v: u32| v < n implies order.contains(v) by {
        assert(order.to_multiset().count(v) == 1);
    }
}

/// The order hosts are handed to workers in: the identity order shuffled
/// once, deterministically from the seed.
pub fn shuffled_order(n: u32, seed: u64) -> (order: Vec<u32>)
    ensures
        order@ == shuffle_of(host_ids(n as int), seed),
        is_host_order(order@, n as int),
        order@.len() == n,
{
    let mut order: Vec<u32> = Vec::new();
    let mut k: u32 = 0;
    while k < n
        invariant
            k <= n,
            order@ == host_ids(k as int),
        decreases n - k,
    {
        order.push(k);
        k += 1;
    }
    proof {
        lemma_host_ids_counts(n as int);
    }
    shuffle_ids(&mut order, seed);
    order
}

/// The worker-pool size: the configured parallelism, or the physical core
/// count when the configuration says zero, but never more workers than
/// hosts.
pub fn effective_parallelism(configured: u32, physical_cores: u32, num_hosts: usize) -> (p: usize)
    requires
        physical_cores >= 1,
    ensures
        p == if (if configured == 0 {
            physical_cores
        } else {
            configured
        }) as int <= num_hosts {
            (if configured == 0 {
                physical_cores
            } else {
                configured
            }) as int
        } else {
            num_hosts as int
        },
        num_hosts > 0 ==> p >= 1,
        p <= num_hosts,
    {
    let want: u32 = if configured == 0 {
        physical_cores
    } else {
        configured
    };
    if (want as usize) <= num_hosts {
        want as usize
    } else {
        num_hosts
    }
}

/// The per-worker CPU pin assignment: one entry per worker, all pinned when
/// pinning is on, none otherwise — never mixed.
pub fn cpu_assignment(use_cpu_pinning: bool, worker_cpus: &Vec<u32>, parallelism: usize) -> (cpus:
    Vec<Option<u32>>)
    requires
        use_cpu_pinning ==> worker_cpus@.len() >= parallelism,
    ensures
        cpus@.len() == parallelism,
        use_cpu_pinning ==> forall|i: int|
            0 <= i < parallelism ==> cpus@[i] == Some(worker_cpus@[i]),
        !use_cpu_pinning ==> forall|i: int| 0 <= i < parallelism ==> cpus@[i] is None,
        (forall|i: int| 0 <= i < parallelism ==> cpus@[i] is Some) || (forall|i: int|
            0 <= i < parallelism ==> cpus@[i] is None),
{
    let mut cpus: Vec<Option<u32>> = Vec::new();
    let mut k: usize = 0;
    while k < parallelism
        invariant
            k <= parallelism,
            cpus@.len() == k,
            use_cpu_pinning ==> worker_cpus@.len() >= parallelism,
            use_cpu_pinning ==> forall|i: int| 0 <= i < k ==> cpus@[i] == Some(worker_cpus@[i]),
            !use_cpu_pinning ==> forall|i: int| 0 <= i < k ==> cpus@[i] is None,
        decreases parallelism - k,
    {
        if use_cpu_pinning {
            cpus.push(Some(worker_cpus[k]));
        } else {
            cpus.push(None);
        }
        k += 1;
    }
    cpus
}

} // verus!
