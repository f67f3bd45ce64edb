use mahjong_core::calculate_shanten;
use mahjong_core::Hand;

fn shanten_of(s: &str) -> i32 {
    let h = Hand::from_string(s).expect("hand should parse");
    calculate_shanten(&h.counts)
}

#[test]
fn complete_hand_is_minus_one() {
    // Four runs plus a pair: 123m 456m 789m 123p 11p.
    assert_eq!(shanten_of("123456789m12311p"), -1);
}

#[test]
fn complete_hand_with_triplets_is_minus_one() {
    // 111m 222m 333m 111z 77z.
    assert_eq!(shanten_of("111222333m11177z"), -1);
}

#[test]
fn twin_runs_hand_is_minus_one() {
    // 11m + 234m 234m + 567m 567m: twin runs are a winning shape.
    assert_eq!(shanten_of("11223344556677m"), -1);
}

#[test]
fn tenpai_hand_is_zero() {
    // 123m 456m 789m 123p + 4p waiting to pair the 4p.
    assert_eq!(shanten_of("123456789m1234p"), 0);
}

#[test]
fn tenpai_with_proto_run_is_zero() {
    // 123m 456m 789m + 12m + 99m waiting on 3m.
    assert_eq!(shanten_of("1234567891299m"), 0);
}

#[test]
fn empty_hand_is_eight() {
    let zeros = vec![0i32; 34];
    assert_eq!(calculate_shanten(&zeros), 8);
}

#[test]
fn scattered_honors_far_from_winning() {
    // Thirteen isolated tiles: no runs, no pairs.
    assert_eq!(shanten_of("147m258p369s1234z"), 8);
}

#[test]
fn calculate_shanten_is_deterministic() {
    let h = Hand::from_string("1234567899m1233m").expect("hand should parse");
    let first = calculate_shanten(&h.counts);
    for _ in 0..5 {
        assert_eq!(calculate_shanten(&h.counts), first);
    }
    let again = Hand::from_string("1234567899m1233m").expect("hand should parse");
    assert_eq!(calculate_shanten(&again.counts), first);
}

#[test]
fn shanten_from_raw_counts() {
    // 1112345678999m as a hand-built vector: a classic waiting shape.
    let mut counts = vec![0i32; 34];
    counts[0] = 3;
    for j in 1..8 {
        counts[j] = 1;
    }
    counts[8] = 3;
    assert_eq!(calculate_shanten(&counts), 0);
}
