use r2048::board::lane_index;
use r2048::board::room_for_move_holds;
use r2048::board::tile_for_roll;
use r2048::board::two_or_four;
use r2048::input::get_user_input;
use r2048::{Board, Direction, Key, UserInput};

fn board(data: [u64; 16]) -> Board {
    Board { data, score: 0 }
}

fn nonzero(data: &[u64; 16]) -> usize {
    data.iter().filter(|v| **v != 0).count()
}

#[test]
fn checkerboard_is_lost() {
    let b = board([2, 4, 2, 4, 4, 2, 4, 2, 2, 4, 2, 4, 4, 2, 4, 2]);
    assert!(b.check_loss());
}

#[test]
fn any_empty_cell_is_not_lost() {
    for k in 0..16 {
        let mut data = [2, 4, 2, 4, 4, 2, 4, 2, 2, 4, 2, 4, 4, 2, 4, 2];
        data[k] = 0;
        assert!(!board(data).check_loss());
    }
}

#[test]
fn equal_neighbours_are_not_lost() {
    // horizontal pair at 5, 6
    let b = board([2, 4, 2, 4, 4, 8, 8, 2, 2, 4, 2, 4, 4, 2, 4, 2]);
    assert!(!b.check_loss());
    // vertical pair at 11, 15
    let b = board([2, 4, 2, 4, 4, 2, 4, 2, 2, 4, 2, 4, 4, 2, 8, 4]);
    assert!(!b.check_loss());
}

#[test]
fn row_ends_are_not_neighbours() {
    // 3 and 4 hold equal values but sit on different rows.
    let b = board([2, 4, 2, 8, 8, 2, 4, 2, 2, 4, 2, 4, 4, 2, 4, 2]);
    assert!(b.check_loss());
}

#[test]
fn lane_indices_follow_direction() {
    assert_eq!(lane_index(Direction::Left, 1, 0), 4);
    assert_eq!(lane_index(Direction::Right, 1, 0), 7);
    assert_eq!(lane_index(Direction::Up, 2, 1), 6);
    assert_eq!(lane_index(Direction::Down, 2, 1), 10);
}

#[test]
fn slide_left_merges_and_scores() {
    let mut b = board([2, 2, 2, 2, 0, 4, 0, 4, 8, 0, 0, 0, 2, 4, 8, 16]);
    assert!(b.slide(Direction::Left));
    assert_eq!(b.data, [4, 4, 0, 0, 8, 0, 0, 0, 8, 0, 0, 0, 2, 4, 8, 16]);
    assert_eq!(b.score, 16);
}

#[test]
fn slide_up_and_down_use_columns() {
    let mut b = board([2, 0, 0, 0, 2, 0, 0, 0, 0, 0, 0, 0, 4, 0, 0, 0]);
    assert!(b.slide(Direction::Up));
    assert_eq!(b.data, [4, 0, 0, 0, 4, 0, 0, 0, 0, 0, 0, 0, 0, 0, 0, 0]);
    assert_eq!(b.score, 4);
    assert!(b.slide(Direction::Down));
    assert_eq!(b.data, [0, 0, 0, 0, 0, 0, 0, 0, 0, 0, 0, 0, 8, 0, 0, 0]);
    assert_eq!(b.score, 12);
}

#[test]
fn slide_keeps_sum_of_tiles() {
    let data = [2, 2, 4, 8, 0, 4, 4, 0, 16, 16, 16, 0, 2, 0, 2, 2];
    let sum: u64 = data.iter().sum();
    for dir in [Direction::Left, Direction::Right, Direction::Up, Direction::Down] {
        let mut b = board(data);
        b.slide(dir);
        assert_eq!(b.data.iter().sum::<u64>(), sum);
    }
}

#[test]
fn illegal_move_is_reported_twice_and_changes_nothing() {
    let data = [2, 4, 8, 16, 4, 8, 16, 2, 0, 0, 0, 0, 0, 0, 0, 0];
    let mut b = Board { data, score: 12 };
    assert!(b.player_move(Direction::Up).is_err());
    assert_eq!(b.data, data);
    assert_eq!(b.score, 12);
    assert!(b.player_move(Direction::Up).is_err());
    assert_eq!(b.data, data);
    assert_eq!(b.score, 12);
    assert!(b.player_move(Direction::Left).is_err());
    assert_eq!(b.data, data);
}

#[test]
fn successful_move_spawns_one_tile_in_a_freed_cell() {
    let data = [2, 2, 0, 0, 0, 0, 0, 0, 0, 0, 0, 0, 0, 0, 0, 4];
    let mut slid = board(data);
    slid.slide(Direction::Left);
    let mut b = board(data);
    assert!(b.player_move(Direction::Left).is_ok());
    assert_eq!(b.score, 4);
    assert_eq!(nonzero(&b.data), nonzero(&slid.data) + 1);
    let mut fresh = 0;
    for k in 0..16 {
        if b.data[k] != slid.data[k] {
            assert_eq!(slid.data[k], 0);
            assert!(b.data[k] == 2 || b.data[k] == 4);
            fresh += 1;
        }
    }
    assert_eq!(fresh, 1);
}

#[test]
fn score_never_decreases() {
    let mut b = board([2, 2, 4, 4, 8, 8, 0, 0, 2, 0, 2, 0, 0, 0, 0, 0]);
    let mut last = b.score;
    for dir in [Direction::Left, Direction::Up, Direction::Right, Direction::Down, Direction::Left] {
        let _ = b.player_move(dir);
        assert!(b.score >= last);
        last = b.score;
    }
}

#[test]
fn left_then_right_is_not_an_inverse() {
    let mut b = board([2, 2, 4, 0, 0, 0, 0, 0, 0, 0, 0, 0, 0, 0, 0, 0]);
    assert!(b.slide(Direction::Left));
    assert_eq!(b.data[0..4], [4, 4, 0, 0]);
    assert!(b.slide(Direction::Right));
    assert_eq!(b.data[0..4], [0, 0, 0, 8]);
}

#[test]
fn resolve_move_spawns_where_told() {
    let mut b = board([2, 2, 0, 0, 0, 0, 0, 0, 0, 0, 0, 0, 0, 0, 0, 0]);
    // After the move the empty cells are 1..=15; pick 16 wraps to the second one.
    assert!(b.resolve_move(Direction::Left, 16, 0).is_ok());
    assert_eq!(b.data, [4, 0, 4, 0, 0, 0, 0, 0, 0, 0, 0, 0, 0, 0, 0, 0]);
    assert_eq!(b.score, 4);
    assert!(b.resolve_move(Direction::Right, 0, 7).is_ok());
    assert_eq!(b.data, [2, 0, 0, 8, 0, 0, 0, 0, 0, 0, 0, 0, 0, 0, 0, 0]);
    assert_eq!(b.score, 12);
    assert!(b.resolve_move(Direction::Up, 3, 3).is_err());
}

#[test]
fn empty_cells_are_listed_in_order() {
    let b = board([2, 0, 4, 0, 8, 8, 8, 8, 8, 8, 8, 8, 8, 8, 8, 0]);
    assert_eq!(b.empty_cells(), vec![1, 3, 15]);
}

#[test]
fn place_tile_fills_the_picked_empty_cell() {
    let mut b = board([2, 0, 4, 0, 8, 8, 8, 8, 8, 8, 8, 8, 8, 8, 8, 0]);
    b.place_tile(1, 0);
    assert_eq!(b.data[3], 4);
    b.place_tile(1, 5);
    assert_eq!(b.data[15], 2);
    assert_eq!(b.data[1], 0);
}

#[test]
fn add_random_fills_the_only_empty_cell() {
    let mut data = [8u64; 16];
    data[9] = 0;
    let mut b = board(data);
    b.add_random();
    assert!(b.data[9] == 2 || b.data[9] == 4);
    assert_eq!(nonzero(&b.data), 16);
}

#[test]
fn new_game_has_one_tile() {
    let b = Board::new_game();
    assert_eq!(b.score, 0);
    assert_eq!(nonzero(&b.data), 1);
    assert!(b.data.iter().all(|v| *v == 0 || *v == 2 || *v == 4));
    let d = Board::default();
    assert_eq!(d.data, [0; 16]);
    assert_eq!(d.score, 0);
}

#[test]
fn rolls_give_two_or_four() {
    assert_eq!(tile_for_roll(0), 4);
    assert_eq!(tile_for_roll(1), 2);
    assert_eq!(tile_for_roll(9), 2);
    for _ in 0..50 {
        let t = two_or_four();
        assert!(t == 2 || t == 4);
    }
}

#[test]
fn keys_map_to_commands() {
    assert_eq!(get_user_input(Key::Left), Some(UserInput::Move(Direction::Left)));
    assert_eq!(get_user_input(Key::W), Some(UserInput::Move(Direction::Up)));
    assert_eq!(get_user_input(Key::S), Some(UserInput::Move(Direction::Down)));
    assert_eq!(get_user_input(Key::D), Some(UserInput::Move(Direction::Right)));
    assert_eq!(get_user_input(Key::Escape), Some(UserInput::Quit));
    assert_eq!(get_user_input(Key::R), Some(UserInput::Reset));
    assert_eq!(get_user_input(Key::H), Some(UserInput::About));
    assert_eq!(get_user_input(Key::Other), None);
}

#[test]
fn room_for_move_detects_overflow() {
    assert!(room_for_move_holds(&board([2; 16])));
    let b = Board { data: [2; 16], score: u64::MAX - 32 };
    assert!(room_for_move_holds(&b));
    let b = Board { data: [2; 16], score: u64::MAX - 31 };
    assert!(!room_for_move_holds(&b));
}
