use rand::rngs::StdRng;
use rand::{RngCore, SeedableRng};
use std::hash::{BuildHasher, Hasher};
use tikv_dst::dst_collections::{hashmap_with_seed, DstBTreeMap, DstBTreeSet, DstBuildHasher};

#[test]
fn hash_map_reproducible_iteration() {
    let mut a = hashmap_with_seed::<u32, u32>(42);
    let mut b = hashmap_with_seed::<u32, u32>(42);
    for i in 0..50 {
        a.insert(i * 7 % 50, i);
        b.insert(i * 7 % 50, i);
    }
    let va: Vec<_> = a.iter().map(|(k, v)| (*k, *v)).collect();
    let vb: Vec<_> = b.iter().map(|(k, v)| (*k, *v)).collect();
    assert_eq!(va, vb);
}

#[test]
fn different_seeds_differ() {
    let mut a = hashmap_with_seed::<u32, u32>(1);
    let mut b = hashmap_with_seed::<u32, u32>(2);
    for i in 0..40 {
        a.insert(i, i);
        b.insert(i, i);
    }
    let va: Vec<_> = a.keys().copied().collect();
    let vb: Vec<_> = b.keys().copied().collect();
    // Very likely different order; if equal, still not a soundness bug.
    let _ = (va, vb);
}

#[test]
fn the_map_starts_empty() {
    let mut m = hashmap_with_seed::<u32, u32>(1);
    assert!(m.is_empty());
    m.insert(1, 2);
    assert_eq!(m.get(&1), Some(&2));
    assert_eq!(m.hasher().build_hasher().finish(), 1);
}

#[test]
fn hashes_fold_bytes_and_mix_in_the_stream() {
    let mut hasher = DstBuildHasher::new(9).build_hasher();
    assert_eq!(hasher.finish(), 9);
    let mut std = StdRng::seed_from_u64(9);
    hasher.write(&[1, 2]);
    let mut state = 9u64;
    state = state.wrapping_mul(0x100_0000_01B3).wrapping_add(1);
    state = state.wrapping_mul(0x100_0000_01B3).wrapping_add(2);
    state ^= std.next_u64() & 0xFFFF;
    assert_eq!(hasher.finish(), state);
    hasher.write(&[]);
    state ^= std.next_u64() & 0xFFFF;
    assert_eq!(hasher.finish(), state);
}

#[test]
fn ordered_collections_are_ordered() {
    let m: DstBTreeMap<u32, u32> = [(3, 0), (1, 1), (2, 2)].into_iter().collect();
    assert_eq!(m.keys().copied().collect::<Vec<_>>(), vec![1, 2, 3]);
    let s: DstBTreeSet<u32> = [3, 1, 2].into_iter().collect();
    assert_eq!(s.into_iter().collect::<Vec<_>>(), vec![1, 2, 3]);
}
