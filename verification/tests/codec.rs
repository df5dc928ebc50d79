use minesweeper_replay::base62::{decode, encode};
use minesweeper_replay::error::MinesweeperError;

#[test]
fn encode_zero_is_empty() {
    assert_eq!(encode(0), "");
}

#[test]
fn encode_small_values() {
    assert_eq!(encode(1), "1");
    assert_eq!(encode(9), "9");
    assert_eq!(encode(10), "A");
    assert_eq!(encode(35), "Z");
    assert_eq!(encode(36), "a");
    assert_eq!(encode(61), "z");
    assert_eq!(encode(62), "10");
    assert_eq!(encode(3843), "zz");
    assert_eq!(encode(3844), "100");
}

#[test]
fn decode_empty_is_zero() {
    assert_eq!(decode(""), Ok(0));
}

#[test]
fn decode_known_values() {
    assert_eq!(decode("z"), Ok(61));
    assert_eq!(decode("10"), Ok(62));
    assert_eq!(decode("zz"), Ok(3843));
    assert_eq!(decode("A"), Ok(10));
    assert_eq!(decode("0"), Ok(0));
    assert_eq!(decode("007"), Ok(7));
}

#[test]
fn round_trip_many_values() {
    let samples: Vec<i64> = vec![
        0,
        1,
        7,
        61,
        62,
        63,
        1000,
        3843,
        3844,
        123_456_789,
        i64::MAX / 2,
        i64::MAX,
    ];
    for n in samples {
        assert_eq!(decode(&encode(n)), Ok(n), "round trip failed for {}", n);
    }
}

#[test]
fn decode_rejects_bad_symbols() {
    assert_eq!(decode("!"), Err(MinesweeperError::InvalidSymbol));
    assert_eq!(decode("1 2"), Err(MinesweeperError::InvalidSymbol));
    assert_eq!(decode("abc|"), Err(MinesweeperError::InvalidSymbol));
}

#[test]
fn decode_rejects_values_over_the_word() {
    // Eleven `z`s make 62^11 - 1, which is larger than any i64.
    assert_eq!(decode("zzzzzzzzzzz"), Err(MinesweeperError::NumberOverflow));
}
