use mahjong_core::analyze;
use mahjong_core::AnalysisResult;
use mahjong_core::ParseError;
use mahjong_core::Recommendation;

fn analyze_ok(hand: &str, discards: &[&str]) -> AnalysisResult {
    let ds: Vec<String> = discards.iter().map(|s| s.to_string()).collect();
    analyze(hand, &ds).expect("analysis should succeed")
}

fn rec_for<'a>(res: &'a AnalysisResult, tile: &str) -> &'a Recommendation {
    res.recommendations
        .iter()
        .find(|r| r.discard_tile == tile)
        .expect("recommendation for tile should exist")
}

#[test]
fn all_wan_tenpai_scenario() {
    // 123m 456m 789m + 12m + 99m: three complete runs, a proto-run
    // missing 3m, and a pair.
    let res = analyze_ok("1234567891299m", &[]);
    assert_eq!(res.current_shanten, 0);
    assert!(res
        .recommendations
        .iter()
        .any(|r| !r.ukeire.is_empty() && r.ukeire_count > 0));
}

#[test]
fn duplicated_honor_eight_is_rejected() {
    let res = analyze("1234567899m88z", &[]);
    assert!(matches!(res, Err(ParseError::HonorOutOfRange)));
}

#[test]
fn bad_discard_string_is_rejected() {
    let ds = vec!["8z".to_string()];
    assert!(matches!(analyze("123m", &ds), Err(ParseError::HonorOutOfRange)));
}

#[test]
fn one_recommendation_per_held_category() {
    let res = analyze_ok("1234567891299m", &[]);
    // Held categories: 1m 2m 3m 4m 5m 6m 7m 8m 9m.
    assert_eq!(res.recommendations.len(), 9);
    let mut tiles: Vec<String> =
        res.recommendations.iter().map(|r| r.discard_tile.clone()).collect();
    tiles.sort();
    tiles.dedup();
    assert_eq!(tiles.len(), 9);
}

#[test]
fn three_visible_copies_leave_one_acceptance() {
    // 123m 456m 789m 123p + 1z 2z; discarding 2z leaves four complete
    // melds waiting only to pair the lone 1z.  One 1z in hand plus two
    // discarded makes three visible: contribution exactly 1.
    let res = analyze_ok("123456789m123p12z", &["11z"]);
    let rec = rec_for(&res, "2z");
    assert_eq!(rec.shanten_after, 0);
    assert_eq!(rec.ukeire, vec!["1z".to_string()]);
    assert_eq!(rec.ukeire_count, 1);
}

#[test]
fn four_visible_copies_leave_no_acceptance() {
    // Same wait, but all four 1z are visible: count 0, never negative.
    let res = analyze_ok("123456789m123p12z", &["111z"]);
    let rec = rec_for(&res, "2z");
    assert_eq!(rec.shanten_after, 0);
    assert_eq!(rec.ukeire, vec!["1z".to_string()]);
    assert_eq!(rec.ukeire_count, 0);
}

#[test]
fn discarding_from_complete_hand_costs_one() {
    // A complete fourteen-tile hand: the best discard leaves tenpai.
    let res = analyze_ok("123456789m12311p", &[]);
    assert_eq!(res.current_shanten, -1);
    let best = res.recommendations.iter().map(|r| r.shanten_after).min().unwrap();
    assert_eq!(best, res.current_shanten + 1);
    assert!(res.recommendations.iter().all(|r| r.shanten_after >= 0));
}

#[test]
fn best_discard_of_near_complete_hand() {
    // 1122333456789 9m: complete as 99m + 123m 123m 345m 678m, so the
    // hand stands at -1 and any discard costs exactly one step.
    let res = analyze_ok("12345678991233m", &[]);
    assert_eq!(res.current_shanten, -1);
    let best = res.recommendations.iter().map(|r| r.shanten_after).min().unwrap();
    assert_eq!(best, res.current_shanten + 1);
}

#[test]
fn recommendations_are_ranked() {
    let res = analyze_ok("12345678991233m", &["9m"]);
    let recs = &res.recommendations;
    for k1 in 0..recs.len() {
        for k2 in (k1 + 1)..recs.len() {
            let a = &recs[k1];
            let b = &recs[k2];
            assert!(
                a.shanten_after < b.shanten_after
                    || (a.shanten_after == b.shanten_after && a.ukeire_count >= b.ukeire_count)
            );
        }
    }
}

#[test]
fn empty_hand_analysis() {
    let res = analyze_ok("", &[]);
    assert_eq!(res.current_shanten, 8);
    assert!(res.recommendations.is_empty());
}

#[test]
fn analysis_is_deterministic() {
    let first = analyze_ok("1234567891299m", &["5p", "5p"]);
    let second = analyze_ok("1234567891299m", &["5p", "5p"]);
    assert_eq!(first.current_shanten, second.current_shanten);
    assert_eq!(first.recommendations.len(), second.recommendations.len());
    for (a, b) in first.recommendations.iter().zip(second.recommendations.iter()) {
        assert_eq!(a.discard_tile, b.discard_tile);
        assert_eq!(a.shanten_after, b.shanten_after);
        assert_eq!(a.ukeire, b.ukeire);
        assert_eq!(a.ukeire_count, b.ukeire_count);
    }
}
