use sqrt_contract::{SqrtContract, SqrtStore};

#[test]
fn sqrt_of_zero_is_zero() {
    assert_eq!(SqrtContract::sqrt(0), 0);
}

#[test]
fn sqrt_of_one_is_one() {
    assert_eq!(SqrtContract::sqrt(1), 1);
}

#[test]
fn sqrt_of_sixteen_is_four() {
    assert_eq!(SqrtContract::sqrt(16), 4);
}

#[test]
fn sqrt_of_seventeen_is_four() {
    assert_eq!(SqrtContract::sqrt(17), 4);
}

#[test]
fn sqrt_of_max_u32() {
    assert_eq!(SqrtContract::sqrt(4294967295), 65535);
}

#[test]
fn sqrt_near_squares() {
    assert_eq!(SqrtContract::sqrt(2), 1);
    assert_eq!(SqrtContract::sqrt(3), 1);
    assert_eq!(SqrtContract::sqrt(8), 2);
    assert_eq!(SqrtContract::sqrt(9), 3);
    assert_eq!(SqrtContract::sqrt(99), 9);
    assert_eq!(SqrtContract::sqrt(100), 10);
    assert_eq!(SqrtContract::sqrt(4294836224), 65534);
    assert_eq!(SqrtContract::sqrt(4294836225), 65535);
}

#[test]
fn sqrt_is_floor_of_root_on_samples() {
    let mut x: u64 = 0;
    while x <= u32::MAX as u64 {
        let r = SqrtContract::sqrt(x as u32) as u64;
        assert!(r * r <= x);
        assert!(x < (r + 1) * (r + 1));
        x = x * 3 + 7;
    }
    for x in 0u64..5000 {
        let r = SqrtContract::sqrt(x as u32) as u64;
        assert!(r * r <= x && x < (r + 1) * (r + 1));
    }
    for x in (u32::MAX as u64 - 5000)..=(u32::MAX as u64) {
        let r = SqrtContract::sqrt(x as u32) as u64;
        assert!(r * r <= x && x < (r + 1) * (r + 1));
    }
}

#[test]
fn sqrt_of_perfect_squares() {
    for k in [0u32, 1, 2, 3, 10, 255, 256, 1000, 4095, 4096, 46340, 65535] {
        assert_eq!(SqrtContract::sqrt(k * k), k);
    }
}

#[test]
fn sqrt_is_monotone_on_samples() {
    let mut prev = 0u32;
    let mut x: u64 = 0;
    while x <= u32::MAX as u64 {
        let r = SqrtContract::sqrt(x as u32);
        assert!(prev <= r);
        prev = r;
        x = x + x / 5 + 1;
    }
}

#[test]
fn log2_values() {
    assert_eq!(SqrtContract::log2(0), 0);
    assert_eq!(SqrtContract::log2(1), 0);
    assert_eq!(SqrtContract::log2(2), 1);
    assert_eq!(SqrtContract::log2(3), 1);
    assert_eq!(SqrtContract::log2(4), 2);
    assert_eq!(SqrtContract::log2(255), 7);
    assert_eq!(SqrtContract::log2(256), 8);
    assert_eq!(SqrtContract::log2(65535), 15);
    assert_eq!(SqrtContract::log2(65536), 16);
    assert_eq!(SqrtContract::log2(0x8000_0000), 31);
    assert_eq!(SqrtContract::log2(u32::MAX), 31);
}

#[test]
fn sqrt_cached_twice_writes_once() {
    let mut store = SqrtStore::new();
    assert_eq!(SqrtContract::sqrt_cached(&mut store, 25), 5);
    assert_eq!(store.writes(), 1);
    assert_eq!(store.get(25), Some(5));
    assert_eq!(SqrtContract::sqrt_cached(&mut store, 25), 5);
    assert_eq!(store.writes(), 1);
    assert_eq!(store.get(25), Some(5));
}

#[test]
fn sqrt_cached_agrees_with_sqrt() {
    let mut store = SqrtStore::new();
    for x in [0u32, 1, 2, 17, 1_000_000, u32::MAX] {
        let first = SqrtContract::sqrt_cached(&mut store, x);
        let second = SqrtContract::sqrt_cached(&mut store, x);
        assert_eq!(first, SqrtContract::sqrt(x));
        assert_eq!(second, first);
        assert_eq!(store.get(x), Some(SqrtContract::sqrt(x)));
    }
    assert_eq!(store.writes(), 6);
}

#[test]
fn sqrt_cached_trusts_the_store() {
    let mut store = SqrtStore::new();
    store.set(49, 8);
    assert_eq!(SqrtContract::sqrt_cached(&mut store, 49), 8);
    assert_eq!(store.writes(), 1);
}

#[test]
fn store_get_and_set() {
    let mut store = SqrtStore::new();
    assert_eq!(store.get(3), None);
    assert_eq!(store.writes(), 0);
    store.set(3, 1);
    store.set(3, 2);
    assert_eq!(store.get(3), Some(2));
    assert_eq!(store.get(4), None);
    assert_eq!(store.writes(), 2);
}

#[test]
fn resolve_cached_hit_and_miss() {
    assert_eq!(SqrtContract::resolve_cached(Some(7), 100), (7, false));
    assert_eq!(SqrtContract::resolve_cached(None, 100), (10, true));
    assert_eq!(SqrtContract::resolve_cached(None, 0), (0, true));
}
