use playground::state::State;
use playground::value::Value;

fn check_state_init<const N: usize>(times: usize) {
    for _ in 0..times {
        let target: i128 = rand::random::<i128>();

        let State::Round1Sending(shares) = State::<N, i128>::init(target) else {
            panic!("invalid state")
        };

        assert_eq!(
            shares
                .into_iter()
                .flatten()
                .reduce(|left, right| left.wrapping_add(right)),
            Some(target)
        );
    }
}

#[test]
fn test_state_init() {
    const TIMES: usize = 100;

    check_state_init::<1>(TIMES);
    check_state_init::<2>(TIMES);
    check_state_init::<3>(TIMES);
    check_state_init::<4>(TIMES);
    check_state_init::<5>(TIMES);
}

fn wrapping_total<V: Value>(values: &[V]) -> V {
    let mut sum = V::zero();
    for v in values {
        sum.wrapping_add_assign(v);
    }
    sum
}

#[test]
fn split_shares_add_up_for_every_width() {
    for _ in 0..50 {
        let a: u8 = rand::random();
        assert_eq!(wrapping_total(&playground::value::split::<u8, 7>(&a)), a);
        let b: i8 = rand::random();
        assert_eq!(wrapping_total(&playground::value::split::<i8, 3>(&b)), b);
        let c: u16 = rand::random();
        assert_eq!(wrapping_total(&playground::value::split::<u16, 10>(&c)), c);
        let d: i16 = rand::random();
        assert_eq!(wrapping_total(&playground::value::split::<i16, 4>(&d)), d);
        let e: u32 = rand::random();
        assert_eq!(wrapping_total(&playground::value::split::<u32, 2>(&e)), e);
        let f: i32 = rand::random();
        assert_eq!(wrapping_total(&playground::value::split::<i32, 9>(&f)), f);
        let g: u64 = rand::random();
        assert_eq!(wrapping_total(&playground::value::split::<u64, 5>(&g)), g);
        let h: i64 = rand::random();
        assert_eq!(wrapping_total(&playground::value::split::<i64, 6>(&h)), h);
        let i: u128 = rand::random();
        assert_eq!(wrapping_total(&playground::value::split::<u128, 10>(&i)), i);
        let j: i128 = rand::random();
        assert_eq!(wrapping_total(&playground::value::split::<i128, 1>(&j)), j);
    }
}

#[test]
fn split_with_noise_gives_exact_shares_unsigned() {
    // sum(noise) = 6, missing part = 4, 4 / 3 = 1 remainder 1 on share 1.
    let shares = playground::value::split_with_noise::<u8, 3>(10, [1, 2, 3], 1);
    assert_eq!(shares, [2, 4, 4]);
}

#[test]
fn split_with_noise_wraps_around() {
    // 250 + 10 wraps to 4; missing part 3 - 4 = 255; 255 / 2 = 127 remainder 1.
    let shares = playground::value::split_with_noise::<u8, 2>(3, [250, 10], 0);
    assert_eq!(shares, [250u8.wrapping_add(128), 137]);
    assert_eq!(shares[0].wrapping_add(shares[1]), 3);
}

#[test]
fn split_with_noise_signed_truncates_toward_zero() {
    // missing part -7; -7 / 2 = -3 remainder -1 (Rust's truncating division).
    let shares = playground::value::split_with_noise::<i8, 2>(-7, [0, 0], 0);
    assert_eq!(shares, [-4, -3]);
    // 127 + 127 wraps to -2; missing part -128 - (-2) = -126; -126 / 2 = -63.
    let shares = playground::value::split_with_noise::<i8, 2>(-128, [127, 127], 1);
    assert_eq!(shares, [64, 64]);
    assert_eq!(shares[0].wrapping_add(shares[1]), -128);
}

#[test]
fn split_with_noise_count_wraps_in_the_type() {
    // 300 parties taken as a u8 is 44: every share gets (0 - 0) / 44 = 0.
    let noise = [0u8; 300];
    let shares = playground::value::split_with_noise::<u8, 300>(0, noise, 5);
    assert!(shares.iter().all(|s| *s == 0));
    let noise = [1u8; 300];
    let shares = playground::value::split_with_noise::<u8, 300>(7, noise, 299);
    assert_eq!(wrapping_total(&shares), 7);
}

#[test]
fn value_conversions() {
    assert_eq!(<u8 as Value>::from_count(300), 44);
    assert_eq!(<i8 as Value>::from_count(200), -56);
    assert_eq!(<i8 as Value>::from_count(127), 127);
    assert_eq!(<u128 as Value>::from_count(5), 5);
    assert_eq!(<i128 as Value>::from_random_bits(u128::MAX), -1);
    assert_eq!(<i64 as Value>::from_random_bits(0x1_0000_0000_0000_0001), 1);
    assert_eq!(<u16 as Value>::from_random_bits(0x12_3456), 0x3456);
    assert_eq!(<i32 as Value>::from_random_bits(0x8000_0000), i32::MIN);
    assert_eq!(<u8 as Value>::zero(), 0);
    assert_eq!(<i16 as Value>::zero(), 0);
}

#[test]
fn value_arithmetic() {
    let mut x: u8 = 200;
    x.wrapping_add_assign(&100);
    assert_eq!(x, 44);
    let mut y: i8 = -100;
    y.wrapping_add_assign(&-100);
    assert_eq!(y, 56);
    assert_eq!(<u32 as Value>::wrapping_difference(&1, &2), u32::MAX);
    assert_eq!(<i64 as Value>::wrapping_difference(&i64::MIN, &1), i64::MAX);
    assert_eq!(<i16 as Value>::div_rem(&-7, &2), (-3, -1));
    assert_eq!(<u64 as Value>::div_rem(&7, &2), (3, 1));
    assert_eq!(<i128 as Value>::div_rem(&7, &-2), (-3, 1));
    assert!(<u8 as Value>::same_as(&3, &3));
    assert!(!<i8 as Value>::same_as(&3, &-3));
}
