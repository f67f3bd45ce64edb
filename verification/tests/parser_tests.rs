use mahjong_core::Hand;
use mahjong_core::ParseError;

fn counts_of(s: &str) -> Vec<i32> {
    Hand::from_string(s).expect("hand should parse").counts
}

#[test]
fn parse_simple_hand() {
    let c = counts_of("123m");
    assert_eq!(c.len(), 34);
    assert_eq!(c[0], 1);
    assert_eq!(c[1], 1);
    assert_eq!(c[2], 1);
    for j in 3..34 {
        assert_eq!(c[j], 0);
    }
}

#[test]
fn parse_all_families() {
    let c = counts_of("1m9m1p9p1s9s1z7z");
    assert_eq!(c[0], 1);
    assert_eq!(c[8], 1);
    assert_eq!(c[9], 1);
    assert_eq!(c[17], 1);
    assert_eq!(c[18], 1);
    assert_eq!(c[26], 1);
    assert_eq!(c[27], 1);
    assert_eq!(c[33], 1);
}

#[test]
fn parse_suit_aliases() {
    let c = counts_of("1w2t3l");
    assert_eq!(c[0], 1);
    assert_eq!(c[10], 1);
    assert_eq!(c[20], 1);
}

#[test]
fn parse_honor_digits_in_range() {
    let c = counts_of("1234567z");
    for j in 27..34 {
        assert_eq!(c[j], 1);
    }
}

#[test]
fn parse_honor_digit_eight_rejected() {
    assert!(matches!(Hand::from_string("8z"), Err(ParseError::HonorOutOfRange)));
}

#[test]
fn parse_honor_digit_nine_rejected() {
    assert!(matches!(Hand::from_string("9z"), Err(ParseError::HonorOutOfRange)));
}

#[test]
fn parse_duplicated_honor_eight_rejected() {
    assert!(matches!(Hand::from_string("1234567899m88z"), Err(ParseError::HonorOutOfRange)));
}

#[test]
fn parse_zero_digit_ignored() {
    let c = counts_of("0m05p");
    assert_eq!(c.iter().sum::<i32>(), 1);
    assert_eq!(c[13], 1);
}

#[test]
fn parse_unknown_characters_skipped() {
    let c = counts_of("1x2m");
    assert_eq!(c[0], 1);
    assert_eq!(c[1], 1);
    assert_eq!(c.iter().sum::<i32>(), 2);
}

#[test]
fn parse_trailing_digits_dropped() {
    let c = counts_of("123");
    assert_eq!(c.iter().sum::<i32>(), 0);
}

#[test]
fn parse_four_copies_allowed() {
    let c = counts_of("5555m");
    assert_eq!(c[4], 4);
}

#[test]
fn parse_fifth_copy_rejected() {
    assert!(matches!(Hand::from_string("55555m"), Err(ParseError::TooManyCopies)));
}

#[test]
fn tile_string_round_trip() {
    assert_eq!(Hand::to_tile_string(0), "1m");
    assert_eq!(Hand::to_tile_string(8), "9m");
    assert_eq!(Hand::to_tile_string(9), "1p");
    assert_eq!(Hand::to_tile_string(13), "5p");
    assert_eq!(Hand::to_tile_string(17), "9p");
    assert_eq!(Hand::to_tile_string(18), "1s");
    assert_eq!(Hand::to_tile_string(26), "9s");
    assert_eq!(Hand::to_tile_string(27), "1z");
    assert_eq!(Hand::to_tile_string(33), "7z");
}

#[test]
fn tile_strings_parse_back() {
    for idx in 0..34usize {
        let s = Hand::to_tile_string(idx);
        let c = counts_of(&s);
        assert_eq!(c[idx], 1);
        assert_eq!(c.iter().sum::<i32>(), 1);
    }
}
