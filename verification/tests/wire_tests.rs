use mancala::engine::EngineError;
use mancala::engine::GameState;
use mancala::engine::BOARD_LENGTH;
use mancala::engine::SLOTS;
use mancala::engine::TOTAL_STONES;
use mancala::message::ClientMessenger;
use mancala::message::Msg;
use mancala::message::MsgBody;
use mancala::message::MsgStatus;
use mancala::message::MsgType;
use mancala::message::Phase;
use mancala::message::ServerMessenger;
use mancala::session::Client;
use mancala::session::Server;
use mancala::wire::decode_msg;
use mancala::wire::encode_msg;

fn board_sum(gs: &GameState) -> u32 {
    gs.get_board().iter().map(|&v| v as u32).sum()
}

#[test]
fn test_move_msg_round_trip() {
    let c = ClientMessenger::new();
    let msg = c.make_move_msg(3).unwrap();
    let bytes = encode_msg(&msg);
    let back = decode_msg(&bytes).unwrap();
    assert_eq!(back.msg_type, MsgType::RequestMove);
    assert_eq!(back.phase, Phase::Ingame);
    assert_eq!(back.status, MsgStatus::Success);
    assert_eq!(back.errors.len(), 0);
    match back.body {
        MsgBody::Move { move_to_make } => assert_eq!(move_to_make, 3),
        _ => panic!("expected a move payload"),
    }
}

#[test]
fn test_state_msg_round_trip() {
    let mut gs = GameState::new("alice".to_string(), "bob".to_string());
    gs.make_move(2).unwrap();
    let msgr = ServerMessenger::new("client_1".to_string());
    let msg = msgr.make_gamestate_message(&gs).unwrap();
    let bytes = encode_msg(&msg);
    let back = decode_msg(&bytes).unwrap();
    assert_eq!(back.msg_type, MsgType::StateReport);
    assert_eq!(back.phase, Phase::Ingame);
    assert_eq!(back.status, MsgStatus::Success);
    assert_eq!(back.errors.len(), 0);
    match back.body {
        MsgBody::State { game_data } => {
            assert_eq!(game_data.player_one, gs.player_one);
            assert_eq!(game_data.player_two, gs.player_two);
            assert_eq!(game_data.game_board, gs.game_board);
            assert_eq!(game_data.player_one_turn, gs.player_one_turn);
            assert_eq!(game_data.active, gs.active);
        }
        _ => panic!("expected a state payload"),
    }
}

#[test]
fn test_unicode_names_round_trip() {
    let gs = GameState::new("päikö".to_string(), "名前 🌍".to_string());
    let msgr = ServerMessenger::new("c".to_string());
    let msg = msgr.make_gamestate_message(&gs).unwrap();
    let back = decode_msg(&encode_msg(&msg)).unwrap();
    match back.body {
        MsgBody::State { game_data } => {
            assert_eq!(game_data.player_one, "päikö");
            assert_eq!(game_data.player_two, "名前 🌍");
        }
        _ => panic!("expected a state payload"),
    }
}

#[test]
fn test_error_strings_round_trip() {
    // error text may even hold a newline: the encoding never writes a
    // raw newline except the closing one
    let msg = Msg {
        msg_type: MsgType::StateReport,
        phase: Phase::Ingame,
        status: MsgStatus::Error,
        errors: vec!["pit out of range".to_string(), "line\nbreak".to_string()],
        body: MsgBody::Move { move_to_make: 0 },
    };
    let bytes = encode_msg(&msg);
    let newlines = bytes.iter().filter(|&&b| b == b'\n').count();
    assert_eq!(newlines, 1);
    assert_eq!(*bytes.last().unwrap(), b'\n');
    let back = decode_msg(&bytes).unwrap();
    assert_eq!(back.status, MsgStatus::Error);
    assert_eq!(back.errors.len(), 2);
    assert_eq!(back.errors[0], "pit out of range");
    assert_eq!(back.errors[1], "line\nbreak");
}

#[test]
fn test_nickname_msg_round_trip() {
    let c = ClientMessenger::new();
    let msg = c.make_nickname_msg("zoe").unwrap();
    let back = decode_msg(&encode_msg(&msg)).unwrap();
    assert_eq!(back.msg_type, MsgType::RequestMove);
    assert_eq!(back.phase, Phase::Pregame);
    match back.body {
        MsgBody::Name { name } => assert_eq!(name, "zoe"),
        _ => panic!("expected a name payload"),
    }
}

#[test]
fn test_empty_nickname_rejected() {
    let c = ClientMessenger::new();
    assert!(c.make_nickname_msg("").is_none());
}

#[test]
fn test_boundary_rejection() {
    let c = ClientMessenger::new();
    assert!(c.make_move_msg(0).is_none());
    assert!(c.make_move_msg(2 * SLOTS).is_none());
    assert!(c.make_move_msg(SLOTS).is_none());
    assert!(c.make_move_msg(usize::MAX).is_none());
    assert!(!c.is_move_legal(0));
    assert!(!c.is_move_legal(SLOTS));
    assert!(!c.is_move_legal(2 * SLOTS));
    assert!(c.is_move_legal(1));
    assert!(c.is_move_legal(2 * SLOTS - 1));
}

#[test]
fn test_decode_rejects_malformed_frames() {
    assert!(decode_msg(b"").is_none());
    // an empty frame holds no message
    assert!(decode_msg(b"\n").is_none());
    // letters where numerals are due
    assert!(decode_msg(b"abc\n").is_none());
    // numeral without its separator
    assert!(decode_msg(b"1;2\n").is_none());
    // a number too wide for the wire
    assert!(decode_msg(b"99999999999999999999999999;0;0;0;0;3;\n").is_none());
    // an unknown payload tag
    assert!(decode_msg(b"0;0;0;0;7;3;\n").is_none());
    // a sound message, then truncated and with trailing bytes
    let c = ClientMessenger::new();
    let bytes = encode_msg(&c.make_move_msg(5).unwrap());
    assert!(decode_msg(&bytes).is_some());
    let truncated = &bytes[..bytes.len() - 1];
    assert!(decode_msg(truncated).is_none());
    let mut trailing = bytes.clone();
    trailing.push(b'0');
    assert!(decode_msg(&trailing).is_none());
}

#[test]
fn test_inactive_game_rejects_moves() {
    let mut gs = GameState::new("a".to_string(), "b".to_string());
    gs.active = false;
    let before = gs.get_board();
    assert_eq!(gs.make_move(1), Err(EngineError::InactiveGame));
    assert_eq!(gs.get_board(), before);
}

#[test]
fn test_sweep_concentrates_all_stones_in_goals() {
    let mut gs = GameState::new("a".to_string(), "b".to_string());
    gs.collect_remaining_stones();
    let mut swept = vec![0u8; BOARD_LENGTH];
    swept[0] = 24;
    swept[SLOTS] = 24;
    assert_eq!(gs.get_board(), swept);
    assert_eq!(board_sum(&gs), TOTAL_STONES as u32);
}

#[test]
fn test_conservation_over_legal_moves() {
    let mut gs = GameState::new("a".to_string(), "b".to_string());
    for _ in 0..40 {
        if !gs.active {
            break;
        }
        // play the first own-side pit holding a stone
        let side = if gs.player_one_turn { 1..SLOTS } else { SLOTS + 1..BOARD_LENGTH };
        let pit = side.clone().find(|&p| gs.game_board[p] > 0).unwrap();
        gs.make_move(pit).unwrap();
        assert_eq!(board_sum(&gs), TOTAL_STONES as u32);
    }
}

#[test]
fn test_get_board_is_a_snapshot() {
    let gs = GameState::new("a".to_string(), "b".to_string());
    let first = gs.get_board();
    let second = gs.get_board();
    assert_eq!(first, second);
    let mut copy = gs.get_board();
    copy[1] = 99;
    assert_eq!(gs.game_board[1], 4);
}

#[test]
fn test_client_connection_string() {
    let client = Client::new("localhost".to_string(), 3333);
    assert_eq!(client.connection, "localhost:3333");
    let client0 = Client::new("h".to_string(), 0);
    assert_eq!(client0.connection, "h:0");
}

#[test]
fn test_server_connection_string() {
    let server = Server::new("127.0.0.1".to_string(), 65535);
    assert_eq!(server.connection, "127.0.0.1:65535");
    assert!(server.client_list.is_empty());
    assert!(server.game_list.is_empty());
}

#[test]
fn test_capture_moves_opposite_stones() {
    // the concrete capture scenario: after pits 6, 11 and 2 the mover's
    // goal holds the landed stone plus the captured six
    let mut gs = GameState::new("a".to_string(), "b".to_string());
    gs.make_move(6).unwrap();
    gs.make_move(11).unwrap();
    gs.make_move(2).unwrap();
    let board = gs.get_board();
    assert_eq!(board[SLOTS], 7);
    assert_eq!(board[0], 1);
    assert_eq!(board[6], 0);
    assert_eq!(board[8], 0);
    assert_eq!(board_sum(&gs), TOTAL_STONES as u32);
}

#[test]
fn test_set_move_and_set_game_state() {
    let mut body = MsgBody::Move { move_to_make: 9 };
    body.set_move_to_make(4);
    match body {
        MsgBody::Move { move_to_make } => assert_eq!(move_to_make, 4),
        _ => panic!("expected a move payload"),
    }
    let gs = GameState::new("a".to_string(), "b".to_string());
    let expected_board = gs.game_board.clone();
    let mut body2 = MsgBody::Move { move_to_make: 0 };
    body2.set_game_state(gs);
    match body2 {
        MsgBody::State { game_data } => {
            assert_eq!(game_data.player_one, "a");
            assert_eq!(game_data.player_two, "b");
            assert_eq!(game_data.game_board, expected_board);
            assert!(game_data.player_one_turn);
            assert!(game_data.active);
        }
        _ => panic!("expected a state payload"),
    }
}
