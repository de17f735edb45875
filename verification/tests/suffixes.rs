use bsdiff_rs::{check_suffix_order, matchlen, qsufsort, search, suffix_array};
use rand::Rng;

fn build_suffix_array(base: &[u8]) -> (Vec<i64>, Vec<i64>) {
    let mut order = vec![0i64; base.len() + 1];
    let mut rank = vec![0i64; base.len() + 1];
    qsufsort(&mut order, &mut rank, base);
    (order, rank)
}

#[test]
fn suffix_order_on_fixed_buffer() {
    let base = [0u8, 1u8, 2u8, 3u8, 4u8, 10u8, 9u8, 255u8, 0u8, 72u8];
    let (order, _rank) = build_suffix_array(&base);
    assert!(check_suffix_order(&order, &base));
}

#[test]
fn suffix_order_on_repetitive_buffer() {
    let mut base = vec![7u8; 400];
    for i in 0..400 {
        if i % 5 == 0 {
            base[i] = (i % 11) as u8;
        }
    }
    let (order, _rank) = build_suffix_array(&base);
    assert!(check_suffix_order(&order, &base));
}

#[test]
fn suffix_order_on_random_buffer() {
    let mut rng = rand_pcg::Mcg128Xsl64::new(3);
    let base = (&mut rng)
        .sample_iter(rand::distributions::Standard)
        .take(10000)
        .collect::<Vec<u8>>();
    let (order, _rank) = build_suffix_array(&base);
    assert!(check_suffix_order(&order, &base));
}

#[test]
fn suffix_order_on_empty_buffer() {
    let (order, _rank) = build_suffix_array(&[]);
    assert!(check_suffix_order(&order, &[]));
    assert_eq!(order, vec![0i64]);
}

#[test]
fn checker_rejects_bad_arrays() {
    let base = [3u8, 1u8, 2u8];
    // wrong length
    assert!(!check_suffix_order(&vec![0i64, 1, 2], &base));
    // not a permutation
    assert!(!check_suffix_order(&vec![3i64, 1, 1, 0], &base));
    // out of range
    assert!(!check_suffix_order(&vec![3i64, 1, 4, 0], &base));
    // a permutation, but suffixes out of order: suffix "3 1 2" > "2"
    assert!(!check_suffix_order(&vec![3i64, 1, 0, 2], &base));
    // entries 1.. in order, but the sentinel is not in slot 0
    assert!(!check_suffix_order(&vec![0i64, 3, 1, 2], &base));
}

#[test]
fn search_returns_true_match_length() {
    let base = [9u8, 8u8, 1u8, 2u8, 3u8, 4u8, 5u8, 0u8];
    let target = [1u8, 2u8, 3u8, 4u8, 9u8];
    let (order, _rank) = build_suffix_array(&base);
    let mut pos: usize = 0;
    let len = search(&order, &base, &target, 0, 0, base.len(), &mut pos);
    assert_eq!(len, 4);
    assert_eq!(pos, 2);
    assert_eq!(matchlen(&base, pos, &target, 0), 4);
}

#[test]
fn suffix_array_constructor_is_valid() {
    let base = [0u8, 1u8, 2u8, 3u8, 4u8, 10u8, 9u8, 255u8, 0u8, 72u8];
    let order = suffix_array(&base);
    assert!(check_suffix_order(&order, &base));
    let (fast, _rank) = build_suffix_array(&base);
    assert_eq!(order, fast);

    let mut rng = rand_pcg::Mcg128Xsl64::new(11);
    let big = (&mut rng)
        .sample_iter(rand::distributions::Standard)
        .take(3000)
        .collect::<Vec<u8>>();
    let order_big = suffix_array(&big);
    assert!(check_suffix_order(&order_big, &big));

    assert_eq!(suffix_array(&[]), vec![0i64]);
}

#[test]
fn search_sees_past_prefix_suffixes() {
    // the suffix at 3 is a proper prefix of the target; the full match
    // still sits at position 0 and must be found
    let base = [97u8, 98u8, 99u8, 97u8, 98u8];
    let target = [97u8, 98u8, 99u8];
    let order = suffix_array(&base);
    let mut pos: usize = 0;
    let len = search(&order, &base, &target, 0, 0, base.len(), &mut pos);
    assert_eq!(len, 3);
    assert_eq!(pos, 0);
}

#[test]
fn rank_inverts_order_both_ways() {
    let base = [0u8, 1u8, 2u8, 3u8, 4u8, 10u8, 9u8, 255u8, 0u8, 72u8];
    let (order, rank) = build_suffix_array(&base);
    for k in 0..order.len() {
        assert_eq!(rank[order[k] as usize], k as i64);
        assert_eq!(order[rank[k] as usize], k as i64);
    }
}
