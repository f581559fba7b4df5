use shenava_asr_server::order::{find_top, order_by, select_top, Key};
use shenava_asr_server::score::{
    descending_key, greater, greater_or_equal, is_nan, HALF, INFINITY, NEG_INFINITY,
};

fn samples() -> Vec<f32> {
    vec![
        0.0,
        -0.0,
        0.5,
        -0.5,
        1.0,
        -1.0,
        0.499_999_97,
        f32::MIN_POSITIVE,
        f32::from_bits(1),
        f32::from_bits(0x8000_0001),
        f32::MAX,
        f32::MIN,
        f32::INFINITY,
        f32::NEG_INFINITY,
        f32::NAN,
        f32::from_bits(0xFFC0_0000),
        f32::from_bits(0x7F80_0001),
    ]
}

#[test]
fn constants_are_the_patterns_they_name() {
    assert_eq!(HALF, 0.5f32.to_bits());
    assert_eq!(INFINITY, f32::INFINITY.to_bits());
    assert_eq!(NEG_INFINITY, f32::NEG_INFINITY.to_bits());
}

#[test]
fn patterns_compare_as_their_numbers() {
    for a in samples() {
        assert_eq!(is_nan(a.to_bits()), a.is_nan());
        for b in samples() {
            assert_eq!(greater(a.to_bits(), b.to_bits()), a > b, "{a} > {b}");
            assert_eq!(greater_or_equal(a.to_bits(), b.to_bits()), a >= b, "{a} >= {b}");
        }
    }
}

#[test]
fn keys_fall_in_the_total_order() {
    for a in samples() {
        for b in samples() {
            let keys = descending_key(b.to_bits()).cmp(&descending_key(a.to_bits()));
            assert_eq!(keys, a.total_cmp(&b), "{a} and {b}");
        }
    }
}

#[test]
fn sorting_is_stable() {
    let key = |first: u64, second: u64, third: u64| Key { first, second, third };
    let keys = vec![
        key(2, 0, 0),
        key(1, 5, 9),
        key(1, 5, 9),
        key(1, 4, 9),
        key(1, 5, 8),
        key(0, 9, 9),
        key(1, 5, 9),
    ];
    assert_eq!(order_by(&keys), vec![5, 3, 4, 1, 2, 6, 0]);
    assert_eq!(order_by(&Vec::new()), Vec::<usize>::new());
}

#[test]
fn long_lists_are_sorted_as_by_the_standard_library() {
    let mut seed: u64 = 12345;
    let mut keys = Vec::new();
    for _ in 0..1000 {
        seed = seed.wrapping_mul(6364136223846793005).wrapping_add(1442695040888963407);
        keys.push(Key { first: (seed >> 33) % 20, second: (seed >> 40) % 3, third: (seed >> 50) % 2 });
    }
    let mut expected: Vec<usize> = (0..keys.len()).collect();
    expected.sort_by_key(|&i| (keys[i].first, keys[i].second, keys[i].third));
    assert_eq!(order_by(&keys), expected);
}

#[test]
fn the_highest_scores_are_selected_and_the_first_of_equal_ones() {
    let scores: Vec<u32> = [1.0f32, 3.0, 2.0, 3.0, f32::NEG_INFINITY, 2.0]
        .iter()
        .map(|x| x.to_bits())
        .collect();
    assert_eq!(find_top(&scores, 3), vec![1, 2, 3]);
    assert_eq!(select_top(&scores, 3), vec![false, true, true, true, false, false]);
    assert_eq!(find_top(&scores, 0), Vec::<usize>::new());
    assert_eq!(find_top(&scores, 9), vec![0, 1, 2, 3, 4, 5]);
}
