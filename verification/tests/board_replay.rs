use minesweeper_replay::board::FieldState;
use minesweeper_replay::parser::{
    parse_flag_data, parse_meta_data, parse_mine_data, parse_open_data, Action,
};
use minesweeper_replay::scheduler::{apply_all_actions, create_tick_map, replay};

#[test]
fn zero_mine_board_opens_fully_in_one_call() {
    let metadata = parse_meta_data("4x4").unwrap();
    let mut board = parse_mine_data("", &metadata).unwrap();
    for x in 0..4usize {
        for y in 0..4usize {
            assert_eq!(board.field_at(x, y).value, 0);
        }
    }
    board.open_field(2, 1);
    for x in 0..4usize {
        for y in 0..4usize {
            assert_eq!(board.field_at(x, y).field_state, FieldState::Open);
        }
    }
    assert_eq!(board.calculate_done_percentage(), 100);
}

#[test]
fn opening_a_mine_never_cascades() {
    let metadata = parse_meta_data("2x2").unwrap();
    // One mine at (0, 0); its own stored adjacency value stays 0, which
    // must not let it cascade like a zero-adjacency free cell.
    let mut board = parse_mine_data("00", &metadata).unwrap();
    assert_eq!(board.field_at(0, 0).value, 0);
    board.open_field(0, 0);
    assert_eq!(board.field_at(0, 0).field_state, FieldState::Open);
    assert_eq!(board.field_at(0, 1).field_state, FieldState::Closed);
    assert_eq!(board.field_at(1, 0).field_state, FieldState::Closed);
    assert_eq!(board.field_at(1, 1).field_state, FieldState::Closed);
    // The mined cell never counts as progress.
    assert_eq!(board.calculate_done_percentage(), 0);
}

#[test]
fn opening_is_idempotent_and_percentage_monotone() {
    let metadata = parse_meta_data("3x3").unwrap();
    let mut board = parse_mine_data("00", &metadata).unwrap();
    assert_eq!(board.calculate_done_percentage(), 0);
    let mut last = 0;
    for (x, y) in [(2usize, 2usize), (2, 2), (1, 1), (0, 1)] {
        board.open_field(x, y);
        let pct = board.calculate_done_percentage();
        assert!(pct >= last, "percentage went down: {} -> {}", last, pct);
        last = pct;
    }
}

#[test]
fn flags_place_and_remove() {
    let metadata = parse_meta_data("2x2").unwrap();
    let mut board = parse_mine_data("", &metadata).unwrap();
    board.set_flag(0, 0, Action::Place);
    assert_eq!(board.field_at(0, 0).field_state, FieldState::Flagged);
    board.set_flag(0, 0, Action::Remove);
    assert_eq!(board.field_at(0, 0).field_state, FieldState::Closed);
}

#[test]
fn snapshot_hands_out_dirty_cells_once() {
    let metadata = parse_meta_data("2x2").unwrap();
    let mut board = parse_mine_data("", &metadata).unwrap();
    // Construction marks every cell dirty.
    let first = board.snapshot_and_clear_dirty();
    assert_eq!(first.len(), 4);
    let second = board.snapshot_and_clear_dirty();
    assert_eq!(second.len(), 0);
    board.set_flag(1, 0, Action::Place);
    let third = board.snapshot_and_clear_dirty();
    assert_eq!(third.len(), 1);
    assert_eq!((third[0].0, third[0].1), (1, 0));
    assert_eq!(third[0].2.field_state, FieldState::Flagged);
}

#[test]
fn tick_map_sorts_and_merges_kinds() {
    let opens = parse_open_data("005;003").unwrap(); // absolute times 5 and 8
    let flags = parse_flag_data("008P;111P").unwrap(); // absolute times 8 and 9
    let ticks = create_tick_map(&opens, &flags);
    let times: Vec<i64> = ticks.iter().map(|t| t.time).collect();
    assert_eq!(times, vec![5, 8, 9]);
    assert!(ticks[0].has_open && !ticks[0].has_flag);
    assert!(ticks[1].has_open && ticks[1].has_flag);
    assert!(!ticks[2].has_open && ticks[2].has_flag);
}

#[test]
fn replay_single_open_on_mine_free_board() {
    // Empty mine segment, one compact open action "00" with time 0, on a
    // mine-free 2x2 board: everything opens, completion reaches 100.
    let metadata = parse_meta_data("2x2").unwrap();
    let mut board = parse_mine_data("", &metadata).unwrap();
    let opens = parse_open_data("000").unwrap();
    assert_eq!((opens[0].x, opens[0].y, opens[0].total_time), (0, 0, 0));
    let flags = parse_flag_data("").unwrap();
    let frames = replay(&mut board, &opens, &flags).unwrap();
    assert_eq!(frames.len(), 2);
    assert_eq!(frames[0].duration_ms, 1000);
    assert_eq!(frames[0].percentage, 0);
    assert_eq!(frames[0].diff.len(), 4); // the whole unrevealed board
    assert_eq!(frames[1].percentage, 100);
    assert_eq!(frames[1].duration_ms, 15000);
    for x in 0..2usize {
        for y in 0..2usize {
            assert_eq!(board.field_at(x, y).field_state, FieldState::Open);
        }
    }
    assert_eq!(board.calculate_done_percentage(), 100);
}

#[test]
fn replay_flag_then_remove_leaves_cell_closed() {
    // Place at (0, 0) at relative time 5, remove at relative time 3
    // (absolute 8): two ticks after the initial frame, and the cell ends
    // Closed.
    let metadata = parse_meta_data("2x2").unwrap();
    let mut board = parse_mine_data("", &metadata).unwrap();
    let opens = parse_open_data("").unwrap();
    let flags = parse_flag_data("005P;003R").unwrap();
    let frames = replay(&mut board, &opens, &flags).unwrap();
    assert_eq!(frames.len(), 3);
    assert_eq!(board.field_at(0, 0).field_state, FieldState::Closed);
    // The first tick shows the flag, the second its removal.
    assert_eq!(frames[1].diff.len(), 1);
    assert_eq!(frames[1].diff[0].2.field_state, FieldState::Flagged);
    assert_eq!(frames[2].diff.len(), 1);
    assert_eq!(frames[2].diff[0].2.field_state, FieldState::Closed);
    // 3 time units at 50 ms each between the two ticks.
    assert_eq!(frames[1].duration_ms, 150);
    assert_eq!(frames[2].duration_ms, 15000);
    assert_eq!(frames[2].percentage, 100);
}

#[test]
fn replay_rejects_actions_off_the_board() {
    let metadata = parse_meta_data("2x2").unwrap();
    let mut board = parse_mine_data("", &metadata).unwrap();
    let opens = parse_open_data("550").unwrap();
    let flags = parse_flag_data("").unwrap();
    assert!(replay(&mut board, &opens, &flags).is_err());
}

#[test]
fn full_reveal_applies_everything_at_once() {
    let metadata = parse_meta_data("3x3").unwrap();
    let mut board = parse_mine_data("11", &metadata).unwrap();
    let opens = parse_open_data("000;200;020;220").unwrap();
    let flags = parse_flag_data("105P").unwrap();
    let pct = apply_all_actions(&mut board, &opens, &flags).unwrap();
    assert_eq!(board.field_at(0, 0).field_state, FieldState::Open);
    assert_eq!(board.field_at(2, 2).field_state, FieldState::Open);
    assert_eq!(board.field_at(1, 0).field_state, FieldState::Flagged);
    assert_eq!(pct, board.calculate_done_percentage());
    assert_eq!(pct, 50); // 4 of 8 free cells are open
}
