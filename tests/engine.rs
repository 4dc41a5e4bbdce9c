use connect_four::{
    challenge, did_player_win, did_win, initialize, make_move, ConnectFour, ErrorCode, Game,
    PlayerKey, TOP_MASK,
};

fn bits(indices: &[u32]) -> u64 {
    let mut m = 0u64;
    for i in indices {
        m |= 1u64 << i;
    }
    m
}

fn key(b: u8) -> PlayerKey {
    PlayerKey::new([b; 32])
}

fn new_game() -> (ConnectFour, Game, PlayerKey, PlayerKey) {
    let mut registry = initialize();
    let p1 = key(1);
    let p2 = key(2);
    let game = challenge(&mut registry, 7, p1, p2);
    (registry, game, p1, p2)
}

#[test]
fn vertical_four_wins() {
    assert!(did_win(bits(&[0, 1, 2, 3])));
    assert!(did_win(bits(&[44, 45, 46, 47])));
}

#[test]
fn horizontal_four_wins() {
    assert!(did_win(bits(&[0, 7, 14, 21])));
    assert!(did_win(bits(&[26, 33, 40, 47])));
}

#[test]
fn rising_diagonal_wins() {
    assert!(did_win(bits(&[0, 8, 16, 24])));
}

#[test]
fn falling_diagonal_wins() {
    assert!(did_win(bits(&[3, 9, 15, 21])));
}

#[test]
fn straddling_column_boundary_does_not_win() {
    // rows 4 and 5 of column 0 with rows 0 and 1 of column 1: consecutive
    // playable cells in bit order, but the sentinel bit between them is clear
    assert!(!did_win(bits(&[4, 5, 7, 8])));
    assert!(!did_win(bits(&[3, 4, 5, 7])));
    // a zigzag between rows 0 and 1 is no line
    assert!(!did_win(bits(&[1, 7, 15, 21])));
}

#[test]
fn three_or_scattered_stones_do_not_win() {
    assert!(!did_win(0));
    assert!(!did_win(bits(&[0, 1, 2])));
    assert!(!did_win(bits(&[0, 7, 14, 28])));
    assert!(!did_win(bits(&[0, 2, 4, 6])));
}

#[test]
fn initialize_sets_bases_mask_and_first_id() {
    let registry = initialize();
    assert_eq!(registry.initial_height, [0, 7, 14, 21, 28, 35, 42]);
    assert_eq!(registry.top_column, 283691315109952);
    assert_eq!(registry.top_column, TOP_MASK);
    assert_eq!(registry.game_id, 1);
}

#[test]
fn challenge_creates_fresh_game_and_advances_id() {
    let mut registry = initialize();
    let first = challenge(&mut registry, 3, key(9), key(8));
    assert_eq!(first.game_id, 1);
    assert_eq!(first.player1, key(9));
    assert_eq!(first.player2, key(8));
    assert_eq!(first.height, [0, 7, 14, 21, 28, 35, 42]);
    assert_eq!(first.board, [0, 0]);
    assert_eq!(first.moves, 0);
    assert!(!first.finished);
    assert_eq!(first.nonce, 3);
    assert_eq!(registry.game_id, 2);
    let second = challenge(&mut registry, 4, key(8), key(9));
    assert_eq!(second.game_id, 2);
    assert_eq!(registry.game_id, 3);
}

#[test]
fn vertical_win_after_fourth_move_of_player1() {
    let (_, mut game, p1, p2) = new_game();
    for _ in 0..3 {
        assert_eq!(make_move(&mut game, &p1, 0), Ok(false));
        assert_eq!(make_move(&mut game, &p2, 1), Ok(false));
    }
    assert!(!did_player_win(&game, 0));
    assert_eq!(make_move(&mut game, &p1, 0), Ok(true));
    assert!(game.finished);
    assert_eq!(game.moves, 7);
    assert!(did_player_win(&game, 0));
    assert!(!did_player_win(&game, 1));
    assert_eq!(game.board[0], bits(&[0, 1, 2, 3]));
    assert_eq!(game.board[1], bits(&[7, 8, 9]));
}

#[test]
fn horizontal_win_for_player2() {
    let (_, mut game, p1, p2) = new_game();
    let script: [(bool, u8); 8] = [
        (true, 6),
        (false, 0),
        (true, 6),
        (false, 1),
        (true, 5),
        (false, 2),
        (true, 6),
        (false, 3),
    ];
    for (i, (first, column)) in script.iter().enumerate() {
        let who = if *first { &p1 } else { &p2 };
        let expect_win = i == script.len() - 1;
        assert_eq!(make_move(&mut game, who, *column), Ok(expect_win));
    }
    assert!(game.finished);
    assert!(did_player_win(&game, 1));
    assert_eq!(game.board[1], bits(&[0, 7, 14, 21]));
}

#[test]
fn full_column_is_invalid_move_and_changes_nothing() {
    let (_, mut game, p1, p2) = new_game();
    for i in 0..6 {
        let who = if i % 2 == 0 { &p1 } else { &p2 };
        assert_eq!(make_move(&mut game, who, 2), Ok(false));
    }
    assert_eq!(game.height[2], 20);
    assert_eq!(game.side_to_move(), 0);
    let would_be = game.board[0] | (1u64 << game.height[2]);
    assert_ne!(would_be & TOP_MASK, 0);
    let before = game;
    assert_eq!(make_move(&mut game, &p1, 2), Err(ErrorCode::InvalidMove));
    assert_eq!(game, before);
    assert_eq!(game.moves, 6);
    assert!(!game.finished);
    assert_eq!(game.board[0] & TOP_MASK, 0);
    assert_eq!(game.board[1] & TOP_MASK, 0);
}

#[test]
fn player2_on_even_move_is_unauthorized() {
    let (_, mut game, _, p2) = new_game();
    let before = game;
    assert_eq!(make_move(&mut game, &p2, 3), Err(ErrorCode::Unauthorized));
    assert_eq!(game, before);
}

#[test]
fn stranger_is_unauthorized() {
    let (_, mut game, p1, _) = new_game();
    assert_eq!(make_move(&mut game, &p1, 3), Ok(false));
    let before = game;
    assert_eq!(make_move(&mut game, &key(3), 3), Err(ErrorCode::Unauthorized));
    assert_eq!(make_move(&mut game, &p1, 3), Err(ErrorCode::Unauthorized));
    assert_eq!(game, before);
}

#[test]
fn column_out_of_range_is_invalid_column() {
    let (_, mut game, p1, p2) = new_game();
    let before = game;
    assert_eq!(make_move(&mut game, &p1, 7), Err(ErrorCode::InvalidColumn));
    assert_eq!(make_move(&mut game, &p1, 255), Err(ErrorCode::InvalidColumn));
    assert_eq!(game, before);
    // the turn is checked before the column
    assert_eq!(make_move(&mut game, &p2, 7), Err(ErrorCode::Unauthorized));
}

#[test]
fn finished_game_refuses_every_move() {
    let (_, mut game, p1, p2) = new_game();
    for _ in 0..3 {
        make_move(&mut game, &p1, 4).unwrap();
        make_move(&mut game, &p2, 5).unwrap();
    }
    assert_eq!(make_move(&mut game, &p1, 4), Ok(true));
    let before = game;
    assert_eq!(make_move(&mut game, &p2, 5), Err(ErrorCode::GameAlreadyFinished));
    assert_eq!(make_move(&mut game, &p1, 5), Err(ErrorCode::GameAlreadyFinished));
    assert_eq!(make_move(&mut game, &p2, 9), Err(ErrorCode::GameAlreadyFinished));
    assert_eq!(game, before);
}

#[test]
fn turns_alternate_with_parity() {
    let (_, mut game, p1, p2) = new_game();
    for i in 0..10u8 {
        let expected = if i % 2 == 0 { p1 } else { p2 };
        assert_eq!(game.current_player(), expected);
        assert_eq!(game.side_to_move(), i % 2);
        assert_eq!(make_move(&mut game, &expected, i % 7), Ok(false));
    }
    assert_eq!(game.moves, 10);
    assert_eq!(game.current_player(), p1);
}

#[test]
fn stones_never_overlap_and_stack_from_the_base() {
    let (_, mut game, p1, p2) = new_game();
    let columns: [u8; 12] = [3, 3, 3, 2, 4, 4, 0, 6, 3, 3, 1, 2];
    for (i, column) in columns.iter().enumerate() {
        let who = if i % 2 == 0 { &p1 } else { &p2 };
        assert_eq!(make_move(&mut game, who, *column), Ok(false));
        assert_eq!(game.board[0] & game.board[1], 0);
        let taken = game.board[0] | game.board[1];
        let mut total = 0u32;
        for c in 0..7u64 {
            let count = game.height[c as usize] - 7 * c;
            assert!(count <= 6);
            assert_eq!((taken >> (7 * c)) & 0x7f, (1u64 << count) - 1);
            total += count as u32;
        }
        assert_eq!(total, u32::from(game.moves));
        assert_eq!(taken.count_ones(), total);
    }
    assert_eq!(game.height, [1, 8, 16, 26, 30, 35, 43]);
}

#[test]
fn player_keys_compare_by_bytes() {
    let a = key(5);
    let mut bytes = [5u8; 32];
    assert!(a.same_as(&PlayerKey::new(bytes)));
    bytes[31] = 6;
    assert!(!a.same_as(&PlayerKey::new(bytes)));
    bytes[31] = 5;
    bytes[0] = 0;
    assert!(!a.same_as(&PlayerKey::new(bytes)));
}

#[test]
fn consistency_accepts_reachable_states() {
    let (registry, mut game, p1, p2) = new_game();
    assert!(registry.is_consistent());
    assert!(game.is_consistent());
    make_move(&mut game, &p1, 3).unwrap();
    make_move(&mut game, &p2, 3).unwrap();
    make_move(&mut game, &p1, 6).unwrap();
    assert!(game.is_consistent());
}

#[test]
fn consistency_rejects_corrupt_games() {
    let (_, mut game, p1, p2) = new_game();
    make_move(&mut game, &p1, 3).unwrap();
    make_move(&mut game, &p2, 3).unwrap();
    let good = game;

    let mut overlap = good;
    overlap.board[1] |= good.board[0];
    assert!(!overlap.is_consistent());

    let mut gap = good;
    gap.board[0] = bits(&[22]);
    gap.board[1] = bits(&[23]);
    assert!(!gap.is_consistent());

    let mut miscounted = good;
    miscounted.moves = 3;
    assert!(!miscounted.is_consistent());

    let mut too_high = good;
    too_high.height[3] = 28;
    assert!(!too_high.is_consistent());

    let mut below_base = good;
    below_base.height[1] = 6;
    assert!(!below_base.is_consistent());

    let mut beyond_board = good;
    beyond_board.board[0] |= 1u64 << 50;
    assert!(!beyond_board.is_consistent());
}

#[test]
fn consistency_rejects_corrupt_registries() {
    let good = initialize();
    let mut r = good;
    r.game_id = 0;
    assert!(!r.is_consistent());
    let mut r = good;
    r.top_column = 0;
    assert!(!r.is_consistent());
    let mut r = good;
    r.initial_height[4] = 27;
    assert!(!r.is_consistent());
}
