use mancala::engine::GameState;
use mancala::engine::SLOTS;
use mancala::engine::TOTAL_STONES;

fn board_sum(gs: &GameState) -> u32 {
    gs.get_board().iter().map(|&v| v as u32).sum()
}

#[test]
fn test_sowing_skips_opponent_goal() {
    // twenty stones in pit 1 walk round the board one and a half
    // times; the opponent's goal (slot 0) must never receive a stone
    let mut gs = GameState::new("a".to_string(), "b".to_string());
    gs.game_board[1] = 20;
    gs.game_board[2] = 0;
    gs.game_board[3] = 0;
    gs.game_board[4] = 0;
    gs.game_board[5] = 0;
    gs.make_move(1).unwrap();
    let board = gs.get_board();
    assert_eq!(board[0], 0);
    assert_eq!(board[SLOTS], 2);
    assert_eq!(board[8], 6);
    assert_eq!(board_sum(&gs), TOTAL_STONES as u32);
    assert!(!gs.player_one_turn);
}

#[test]
fn test_game_ends_when_side_empties() {
    // player one's last stone scores and empties their side: the game
    // ends, the other side is swept into its own goal, and no further
    // move is accepted
    let mut gs = GameState::new("a".to_string(), "b".to_string());
    gs.game_board[1] = 0;
    gs.game_board[2] = 0;
    gs.game_board[3] = 0;
    gs.game_board[4] = 0;
    gs.game_board[5] = 0;
    gs.game_board[6] = 1;
    gs.game_board[SLOTS] = 23;
    gs.make_move(6).unwrap();
    assert!(!gs.active);
    let board = gs.get_board();
    assert_eq!(board[SLOTS], 24);
    assert_eq!(board[0], 24);
    for pit in 1..SLOTS {
        assert_eq!(board[pit], 0);
    }
    for pit in SLOTS + 1..2 * SLOTS {
        assert_eq!(board[pit], 0);
    }
    assert!(gs.make_move(8).is_err());
}
