use minesweeper_replay::error::MinesweeperError;
use minesweeper_replay::parser::{
    get_flag_type, parse_flag_data, parse_meta_data, parse_mine_data, parse_mine_locations,
    parse_open_data, Action, Metadata,
};

#[test]
fn metadata_parses_both_sides() {
    let m = parse_meta_data("3x3").unwrap();
    assert_eq!(m.x_size, 3);
    assert_eq!(m.y_size, 3);
    let m = parse_meta_data("10x20").unwrap();
    assert_eq!(m.x_size, 10);
    assert_eq!(m.y_size, 20);
    let m = parse_meta_data("0x0").unwrap();
    assert_eq!(m.x_size, 0);
    assert_eq!(m.y_size, 0);
}

#[test]
fn metadata_rejects_malformed_input() {
    for bad in ["", "3", "3y3", "x3", "3x", "-3x4", "3x+4", "3x4x5", "3000000000x2"] {
        assert_eq!(
            parse_meta_data(bad),
            Err(MinesweeperError::MalformedMetadata),
            "expected rejection of {:?}",
            bad
        );
    }
}

#[test]
fn mine_locations_empty_means_no_mines() {
    assert_eq!(parse_mine_locations(""), Ok(vec![]));
}

#[test]
fn mine_locations_compact_chunks() {
    assert_eq!(parse_mine_locations("11"), Ok(vec![(1, 1)]));
    assert_eq!(parse_mine_locations("0011"), Ok(vec![(0, 0), (1, 1)]));
    assert_eq!(parse_mine_locations("zA"), Ok(vec![(61, 10)]));
}

#[test]
fn mine_locations_pair_layout_and_records() {
    assert_eq!(parse_mine_locations("A|B"), Ok(vec![(10, 11)]));
    assert_eq!(parse_mine_locations("1|2;34"), Ok(vec![(1, 2), (3, 4)]));
    assert_eq!(parse_mine_locations("10|2"), Ok(vec![(62, 2)]));
}

#[test]
fn mine_locations_rejects_bad_records() {
    assert_eq!(
        parse_mine_locations("123"),
        Err(MinesweeperError::MalformedMineRecord)
    );
    assert_eq!(
        parse_mine_locations("1!"),
        Err(MinesweeperError::InvalidSymbol)
    );
    assert_eq!(
        parse_mine_locations("zzzzzzzzzzz|1"),
        Err(MinesweeperError::NumberOverflow)
    );
}

#[test]
fn open_data_empty_means_no_actions() {
    assert_eq!(parse_open_data("").unwrap().len(), 0);
}

#[test]
fn open_data_compact_and_pair() {
    let v = parse_open_data("0010;115").unwrap();
    assert_eq!(v.len(), 2);
    assert_eq!((v[0].x, v[0].y, v[0].time, v[0].total_time), (0, 0, 10, 10));
    assert_eq!((v[1].x, v[1].y, v[1].time, v[1].total_time), (1, 1, 5, 15));
    let v = parse_open_data("A|B:42").unwrap();
    assert_eq!((v[0].x, v[0].y, v[0].time, v[0].total_time), (10, 11, 42, 42));
}

#[test]
fn open_data_accumulates_in_order() {
    let v = parse_open_data("001;002;003").unwrap();
    let totals: Vec<i64> = v.iter().map(|a| a.total_time).collect();
    assert_eq!(totals, vec![1, 3, 6]);
    // Monotone for non-negative relative times.
    for w in totals.windows(2) {
        assert!(w[0] <= w[1]);
    }
}

#[test]
fn open_data_accepts_negative_times() {
    let v = parse_open_data("00-5;003").unwrap();
    assert_eq!(v[0].total_time, -5);
    assert_eq!(v[1].total_time, -2);
}

#[test]
fn open_data_rejects_bad_records() {
    assert_eq!(
        parse_open_data("0"),
        Err(MinesweeperError::MalformedActionRecord)
    );
    assert_eq!(
        parse_open_data("1|2"),
        Err(MinesweeperError::MalformedActionRecord)
    );
    assert_eq!(
        parse_open_data("00x"),
        Err(MinesweeperError::MalformedTimeValue)
    );
    assert_eq!(parse_open_data("00"), Err(MinesweeperError::MalformedTimeValue));
    assert_eq!(
        parse_open_data("!05"),
        Err(MinesweeperError::InvalidSymbol)
    );
    assert_eq!(
        parse_open_data("009223372036854775807;001"),
        Err(MinesweeperError::NumberOverflow)
    );
}

#[test]
fn flag_data_compact_and_pair() {
    let v = parse_flag_data("005P").unwrap();
    assert_eq!(
        (v[0].x, v[0].y, v[0].time, v[0].total_time, v[0].action),
        (0, 0, 5, 5, Action::Place)
    );
    let v = parse_flag_data("1|2:3R").unwrap();
    assert_eq!(
        (v[0].x, v[0].y, v[0].time, v[0].total_time, v[0].action),
        (1, 2, 3, 3, Action::Remove)
    );
}

#[test]
fn flag_data_accumulates_independently() {
    let v = parse_flag_data("005P;003R").unwrap();
    assert_eq!(v[0].total_time, 5);
    assert_eq!(v[1].total_time, 8);
    assert_eq!(v[0].action, Action::Place);
    assert_eq!(v[1].action, Action::Remove);
}

#[test]
fn flag_data_rejects_bad_records() {
    assert_eq!(
        parse_flag_data("00P"),
        Err(MinesweeperError::MalformedTimeValue)
    );
    assert_eq!(
        parse_flag_data("005X"),
        Err(MinesweeperError::UnknownActionKind)
    );
    assert_eq!(
        parse_flag_data("00"),
        Err(MinesweeperError::MalformedActionRecord)
    );
    assert_eq!(
        parse_flag_data("1|2:3"),
        Err(MinesweeperError::UnknownActionKind)
    );
}

#[test]
fn flag_type_characters() {
    assert_eq!(get_flag_type('P'), Ok(Action::Place));
    assert_eq!(get_flag_type('R'), Ok(Action::Remove));
    assert_eq!(get_flag_type('Q'), Err(MinesweeperError::UnknownActionKind));
}

#[test]
fn mine_data_single_center_mine_on_3x3() {
    let metadata = Metadata { x_size: 3, y_size: 3 };
    let board = parse_mine_data("11", &metadata).unwrap();
    assert_eq!(board.mine_count, 1);
    assert_eq!(board.total_fields, 9);
    assert_eq!(board.calculate_done_percentage(), 0);
    for x in 0..3usize {
        for y in 0..3usize {
            let f = board.field_at(x, y);
            if x == 1 && y == 1 {
                assert!(f.mine);
                assert_eq!(f.value, 0);
            } else {
                assert!(!f.mine);
                assert_eq!(f.value, 1, "cell ({}, {})", x, y);
            }
        }
    }
}

#[test]
fn mine_data_adjacency_matches_brute_force() {
    let metadata = Metadata { x_size: 4, y_size: 3 };
    let mines = vec![(0, 0), (1, 1), (3, 2)];
    let board = parse_mine_data("0011;3|2", &metadata).unwrap();
    for x in 0..4i32 {
        for y in 0..3i32 {
            let f = board.field_at(x as usize, y as usize);
            let mined = mines.contains(&(x, y));
            assert_eq!(f.mine, mined);
            if mined {
                assert_eq!(f.value, 0);
            } else {
                let mut n = 0;
                for dx in -1..=1i32 {
                    for dy in -1..=1i32 {
                        if (dx != 0 || dy != 0) && mines.contains(&(x + dx, y + dy)) {
                            n += 1;
                        }
                    }
                }
                assert_eq!(f.value, n as u8, "cell ({}, {})", x, y);
            }
        }
    }
}

#[test]
fn mine_data_rejects_out_of_bounds() {
    let metadata = Metadata { x_size: 3, y_size: 3 };
    assert!(matches!(
        parse_mine_data("55", &metadata),
        Err(MinesweeperError::CoordinateOutOfBounds)
    ));
}

#[test]
fn mine_data_empty_board_is_valid() {
    let metadata = Metadata { x_size: 0, y_size: 0 };
    let board = parse_mine_data("", &metadata).unwrap();
    assert_eq!(board.total_fields, 0);
    assert_eq!(board.calculate_done_percentage(), 0);
}
