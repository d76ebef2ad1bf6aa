use mancala::engine::GameState;
use mancala::engine::BOARD_LENGTH;
use mancala::engine::SLOTS;
use mancala::engine::STARTING_STONES;
use mancala::message::ClientMessenger;
use mancala::message::Msg;
use mancala::message::MsgBody;
use mancala::message::MsgStatus;
use mancala::message::MsgType;
use mancala::message::Phase;
use mancala::message::ServerMessenger;

fn fresh_board() -> Vec<u8> {
    let mut init_game_board = vec![STARTING_STONES; BOARD_LENGTH];
    init_game_board[SLOTS] = 0;
    init_game_board[0] = 0;
    init_game_board
}

#[test]
fn test_game_state_can_be_initialized() {
    let gs: GameState = GameState::new("asdf".to_string(), "asdf2".to_string());
    let _ = gs;
}

#[test]
fn test_game_state_init_values_are_correct() {
    let gs: GameState = GameState::new("asdf".to_string(), "asdf2".to_string());
    let init_game_board = fresh_board();
    assert_eq!(gs.player_one, "asdf".to_string());
    assert_eq!(gs.player_two, "asdf2".to_string());
    assert_eq!(gs.game_board, init_game_board);
    assert!(gs.player_one_turn);
    assert!(gs.active);
}

#[test]
fn test_game_state_updates_after_one_move() {
    let mut gs: GameState = GameState::new("asdf".to_string(), "asdf2".to_string());
    let init_game_board = fresh_board();
    gs.make_move(1).unwrap();
    assert_ne!(gs.game_board, init_game_board);
}

#[test]
fn test_turn_changes_after_making_move() {
    let mut gs: GameState = GameState::new("asdf".to_string(), "asdf2".to_string());
    let turn1: bool = gs.player_one_turn;
    gs.make_move(1).unwrap();
    let turn2: bool = gs.player_one_turn;
    gs.make_move(2).unwrap();
    let turn3: bool = gs.player_one_turn;
    gs.make_move(3).unwrap();
    let turn4: bool = gs.player_one_turn;
    assert_eq!(turn1, turn3);
    assert_eq!(turn2, turn4);
    assert_ne!(turn1, turn2);
    assert_ne!(turn3, turn4);
}

#[test]
fn test_scoring_turns_dont_change_players() {
    let mut gs: GameState = GameState::new("asdf".to_string(), "asdf2".to_string());
    let turn1: bool = gs.player_one_turn;
    gs.make_move(3).unwrap();
    let turn2: bool = gs.player_one_turn;
    assert_eq!(turn1, turn2);
}

#[test]
fn test_captures() {
    // this test assumes SLOTS = 7 and starting_stones = 4
    let mut gs: GameState = GameState::new("asdf".to_string(), "asdf2".to_string());
    gs.make_move(6).unwrap();
    gs.make_move(11).unwrap();
    let turn1: bool = gs.player_one_turn;
    gs.make_move(2).unwrap();
    let turn2: bool = gs.player_one_turn;
    assert_eq!(turn1, turn2);
    assert_eq!(gs.game_board[gs.player_one_goal_slot], 7);
    assert_eq!(gs.game_board[gs.player_two_goal_slot], 1);
    assert_eq!(gs.game_board[8], 0);
    assert_eq!(gs.game_board[6], 0);
}

#[test]
fn test_collect_remaining() {
    let mut gs: GameState = GameState::new("asdf".to_string(), "asdf2".to_string());
    let mut gs2: GameState = GameState::new("asdf".to_string(), "asdf2".to_string());
    gs.collect_remaining_stones();
    gs2.make_move(6).unwrap();
    gs2.collect_remaining_stones();
    assert_eq!(gs.game_board[gs.player_one_goal_slot], 24);
    assert_eq!(gs.game_board[gs.player_two_goal_slot], 24);
    assert_eq!(gs2.game_board[gs2.player_one_goal_slot], 21);
    assert_eq!(gs2.game_board[gs2.player_two_goal_slot], 27);
}

#[test]
fn test_client_msg_make_nickname() {
    let c: ClientMessenger = ClientMessenger::new();
    let m: Option<Msg> = c.make_nickname_msg("asdf");
    match &m {
        Some(_msg) => assert_eq!(true, true),
        None => assert_eq!(true, false),
    };
    let msg: Msg = m.unwrap();
    assert_eq!(msg.msg_type, MsgType::RequestMove);
    assert_eq!(msg.errors.len(), 0);
    assert_eq!(msg.phase, Phase::Pregame);
    assert_eq!(msg.status, MsgStatus::Success);
}

#[test]
fn test_client_msg_make_move() {
    let c: ClientMessenger = ClientMessenger::new();
    let m: Option<Msg> = c.make_move_msg(1);
    let m1: Option<Msg> = c.make_move_msg(0);
    let m2: Option<Msg> = c.make_move_msg(SLOTS * 2);
    match &m {
        Some(_msg) => assert!(true),
        None => assert!(false),
    };
    match &m1 {
        Some(_msg) => assert!(false),
        None => assert!(true),
    };
    match &m2 {
        Some(_msg) => assert!(false),
        None => assert!(true),
    };
    let msg: Msg = m.unwrap();
    assert_eq!(msg.msg_type, MsgType::RequestMove);
    assert_eq!(msg.errors.len(), 0);
    assert_eq!(msg.phase, Phase::Ingame);
    assert_eq!(msg.status, MsgStatus::Success);
    match msg.body {
        MsgBody::Move { move_to_make } => assert_eq!(move_to_make, 1),
        _ => panic!("expected a move payload"),
    }
}

#[test]
fn test_make_server_messenger_gamestate_msg() {
    let name = "client_1";
    let s_msgr = ServerMessenger::new(name.to_string());
    assert_eq!(s_msgr.client_connection_name, name);
    let gs: GameState = GameState::new("asdf".to_string(), "asdf2".to_string());
    let gs_msg: Option<Msg> = s_msgr.make_gamestate_message(&gs);
    match &gs_msg {
        Some(_msg) => assert!(true),
        None => assert!(false),
    }
    let msg: Msg = gs_msg.unwrap();
    assert_eq!(msg.msg_type, MsgType::StateReport);
    assert_eq!(msg.errors.len(), 0);
    assert_eq!(msg.phase, Phase::Ingame);
    assert_eq!(msg.status, MsgStatus::Success);
    match msg.body {
        MsgBody::State { game_data } => {
            assert_eq!(game_data.player_one, gs.player_one);
            assert_eq!(game_data.player_two, gs.player_two);
            assert_eq!(game_data.player_one_turn, gs.player_one_turn);
            assert_eq!(game_data.game_board, gs.game_board);
            assert_eq!(game_data.active, gs.active);
        }
        _ => panic!("expected a state payload"),
    }
}
