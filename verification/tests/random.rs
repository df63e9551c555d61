use rand::rngs::StdRng;
use rand::{RngCore, SeedableRng};
use tikv_dst::dst_rng::{dst_set_rng_seed, dst_thread_rng, DstRng};

#[test]
fn test_deterministic() {
    let mut a = DstRng::seed_from_u64(42);
    let mut b = DstRng::seed_from_u64(42);
    for _ in 0..100 {
        assert_eq!(a.next_u64(), b.next_u64());
    }
}

#[test]
fn test_thread_local() {
    let mut thread_rng = DstRng::thread_default();
    dst_set_rng_seed(&mut thread_rng, 99);
    let v1 = dst_thread_rng(&mut thread_rng).next_u64();
    dst_set_rng_seed(&mut thread_rng, 99);
    let v2 = dst_thread_rng(&mut thread_rng).next_u64();
    assert_eq!(v1, v2);
}

#[test]
fn draws_are_those_of_the_standard_generator() {
    let mut ours = DstRng::seed_from_u64(7);
    let mut std = StdRng::seed_from_u64(7);
    for _ in 0..70 {
        assert_eq!(ours.next_u32(), std.next_u32());
        assert_eq!(ours.next_u64(), std.next_u64());
        let mut a = [0u8; 11];
        let mut b = [0u8; 11];
        ours.fill_bytes(&mut a);
        std.fill_bytes(&mut b);
        assert_eq!(a, b);
        assert_ne!(a, [0u8; 11]);
    }
}

#[test]
fn draws_move_along_one_stream_of_words() {
    let mut words = DstRng::seed_from_u64(3);
    let mut mixed = DstRng::seed_from_u64(3);
    // Long enough to cross the ends of the generator's blocks at odd places.
    for _ in 0..200 {
        assert_eq!(mixed.next_u32(), words.next_u32());
        let low = words.next_u32() as u64;
        let high = words.next_u32() as u64;
        assert_eq!(mixed.next_u64(), low | (high << 32));
        let mut bytes = [0u8; 6];
        mixed.fill_bytes(&mut bytes);
        let first = words.next_u32().to_le_bytes();
        let second = words.next_u32().to_le_bytes();
        assert_eq!(bytes[..4], first);
        assert_eq!(bytes[4..], second[..2]);
    }
    let mut none: [u8; 0] = [];
    mixed.fill_bytes(&mut none);
    assert_eq!(mixed.next_u32(), words.next_u32());
}

#[test]
fn filling_never_fails() {
    let mut a = DstRng::seed_from_u64(5);
    let mut b = DstRng::seed_from_u64(5);
    let mut x = [0u8; 9];
    let mut y = [0u8; 9];
    assert!(a.try_fill_bytes(&mut x).is_ok());
    b.fill_bytes(&mut y);
    assert_eq!(x, y);
    assert_eq!(a.next_u64(), b.next_u64());
}

#[test]
fn the_handle_draws_from_the_thread() {
    let mut thread_rng = DstRng::thread_default();
    let mut same = DstRng::seed_from_u64(0xDEAD_BEEF_CAFE_BABE);
    {
        let mut handle = dst_thread_rng(&mut thread_rng);
        assert_eq!(handle.next_u32(), same.next_u32());
        assert_eq!(handle.next_u64(), same.next_u64());
        let mut a = [0u8; 5];
        let mut b = [0u8; 5];
        handle.fill_bytes(&mut a);
        same.fill_bytes(&mut b);
        assert_eq!(a, b);
        assert!(handle.try_fill_bytes(&mut a).is_ok());
        same.fill_bytes(&mut b);
        assert_eq!(a, b);
    }
    assert_eq!(thread_rng.next_u64(), same.next_u64());
    assert_ne!(
        DstRng::seed_from_u64(1).next_u64(),
        DstRng::seed_from_u64(2).next_u64()
    );
}
