//! The message protocol: a tagged envelope carrying either a move
//! request or a snapshot of the game state, exchanged between the two
//! parties of a game.

use vstd::prelude::*;

use crate::engine::BOARD_LENGTH;
use crate::engine::GameState;
use crate::engine::GameView;
use crate::engine::SLOTS;

verus! {

/// What a message asks for or reports.
#[derive(Clone, Copy, Debug, PartialEq, Eq, Structural)]
pub enum MsgType {
    /// The sender asks for a move (or, pregame, to join under a name).
    RequestMove,
    /// The sender reports the state of the game.
    StateReport,
}

/// Which stage of a session a message belongs to.
#[derive(Clone, Copy, Debug, PartialEq, Eq, Structural)]
pub enum Phase {
    Pregame,
    Ingame,
}

/// Whether the sender is reporting success or an error.
#[derive(Clone, Copy, Debug, PartialEq, Eq, Structural)]
pub enum MsgStatus {
    Success,
    Error,
}

/// An immutable snapshot of a [`GameState`], as it travels on the wire:
/// the goal indices stay home since both ends know the layout.
#[derive(Debug)]
pub struct GameData {
    pub player_one: String,
    pub player_two: String,
    pub game_board: Vec<u8>,
    pub player_one_turn: bool,
    pub active: bool,
}

impl View for GameData {
    type V = GameView;

    open spec fn view(&self) -> GameView {
        GameView {
            player_one: self.player_one@,
            player_two: self.player_two@,
            board: self.game_board@,
            player_one_turn: self.player_one_turn,
            active: self.active,
        }
    }
}

impl GameData {
    /// Snapshot the given game, field for field.
    pub fn new(game_state: &GameState) -> (data: GameData)
        ensures
            data@ == game_state@,
    {
        GameData {
            player_one: game_state.player_one.clone(),
            player_two: game_state.player_two.clone(),
            game_board: game_state.get_board(),
            player_one_turn: game_state.player_one_turn,
            active: game_state.active,
        }
    }
}

/// Mathematical value of a message payload.
pub ghost enum BodyView {
    Move { move_to_make: usize },
    State { game_data: GameView },
    Name { name: Seq<char> },
}

/// The payload of a message: exactly one of a pit index to play, a game
/// snapshot, or a display name to join under.
#[derive(Debug)]
pub enum MsgBody {
    Move { move_to_make: usize },
    State { game_data: GameData },
    Name { name: String },
}

impl View for MsgBody {
    type V = BodyView;

    open spec fn view(&self) -> BodyView {
        match self {
            MsgBody::Move { move_to_make } => BodyView::Move { move_to_make: *move_to_make },
            MsgBody::State { game_data } => BodyView::State { game_data: game_data@ },
            MsgBody::Name { name } => BodyView::Name { name: name@ },
        }
    }
}

impl MsgBody {
    /// Replace this payload with a snapshot of the given game.
    pub fn set_game_state(&mut self, game_state: GameState)
        ensures
            final(self)@ == (BodyView::State { game_data: game_state@ }),
    {
        *self = MsgBody::State { game_data: GameData::new(&game_state) };
    }

    /// Replace this payload with the pit index to play.
    pub fn set_move_to_make(&mut self, move_to_make: usize)
        ensures
            final(self)@ == (BodyView::Move { move_to_make }),
    {
        *self = MsgBody::Move { move_to_make };
    }
}

/// Mathematical value of a whole message.
#[verifier::ext_equal]
pub ghost struct MsgView {
    pub msg_type: MsgType,
    pub phase: Phase,
    pub status: MsgStatus,
    pub errors: Seq<Seq<char>>,
    pub body: BodyView,
}

/// The message envelope: type, phase, status, the error strings (empty
/// on success), and the payload.
#[derive(Debug)]
pub struct Msg {
    pub msg_type: MsgType,
    pub phase: Phase,
    pub status: MsgStatus,
    pub errors: Vec<String>,
    pub body: MsgBody,
}

impl View for Msg {
    type V = MsgView;

    open spec fn view(&self) -> MsgView {
        MsgView {
            msg_type: self.msg_type,
            phase: self.phase,
            status: self.status,
            errors: self.errors.deep_view(),
            body: self.body@,
        }
    }
}

impl Msg {
    /// A fresh envelope around `body`: status [`MsgStatus::Success`] and no
    /// errors.
    pub fn new(msg_type: MsgType, phase: Phase, body: MsgBody) -> (msg: Msg)
        ensures
            msg@ == (MsgView {
                msg_type,
                phase,
                status: MsgStatus::Success,
                errors: Seq::empty(),
                body: body@,
            }),
    {
        let msg = Msg { msg_type, phase, status: MsgStatus::Success, errors: Vec::new(), body };
        proof {
            assert(msg@.errors =~~= Seq::<Seq<char>>::empty());
            assert(msg@ =~= (MsgView {
                msg_type,
                phase,
                status: MsgStatus::Success,
                errors: Seq::empty(),
                body: msg.body@,
            }));
        }
        msg
    }
}

/// Whether `move_to_make` is a pit index a move may be requested for: in
/// range and not one of the two goal slots.
pub open spec fn move_legal(move_to_make: int) -> bool {
    0 < move_to_make < (BOARD_LENGTH as int) && move_to_make != (SLOTS as int)
}

/// Builds the messages a game client sends.
#[derive(Debug)]
pub struct ClientMessenger {}

impl ClientMessenger {
    pub fn new() -> ClientMessenger {
        ClientMessenger {  }
    }

    /// Whether a move request for this pit index may be built: bounds
    /// and goal-slot exclusion only; whose turn it is and whether the
    /// pit is empty are the receiving side's checks.
    pub fn is_move_legal(&self, move_to_make: usize) -> (legal: bool)
        ensures
            legal == move_legal(move_to_make as int),
    {
        move_to_make > 0 && move_to_make < BOARD_LENGTH && move_to_make != SLOTS
    }

    /// A pregame request to join under `name`; rejected when the name
    /// is empty.
    pub fn make_nickname_msg(&self, name: &str) -> (msg: Option<Msg>)
        ensures
            msg is Some <==> name@.len() > 0,
            msg is Some ==> msg->0@ == (MsgView {
                msg_type: MsgType::RequestMove,
                phase: Phase::Pregame,
                status: MsgStatus::Success,
                errors: Seq::empty(),
                body: BodyView::Name { name: name@ },
            }),
    {
        if name.is_empty() {
            return None;
        }
        let msg_t: MsgType = MsgType::RequestMove;
        let msg_h: Phase = Phase::Pregame;
        let msg_b: MsgBody = MsgBody::Name { name: name.to_owned() };
        let msg_to_server: Msg = Msg::new(msg_t, msg_h, msg_b);
        Some(msg_to_server)
    }

    /// An ingame request to play the pit `move_to_make`; rejected
    /// unless the index passes [`ClientMessenger::is_move_legal`], so a
    /// request naming a goal slot or an out-of-range index never
    /// reaches the engine.
    pub fn make_move_msg(&self, move_to_make: usize) -> (msg: Option<Msg>)
        ensures
            msg is Some <==> move_legal(move_to_make as int),
            msg is Some ==> msg->0@ == (MsgView {
                msg_type: MsgType::RequestMove,
                phase: Phase::Ingame,
                status: MsgStatus::Success,
                errors: Seq::empty(),
                body: BodyView::Move { move_to_make },
            }),
    {
        if !self.is_move_legal(move_to_make) {
            return None;
        }
        let msg_t: MsgType = MsgType::RequestMove;
        let msg_h: Phase = Phase::Ingame;
        let msg_b: MsgBody = MsgBody::Move { move_to_make };
        let msg_to_server: Msg = Msg::new(msg_t, msg_h, msg_b);
        Some(msg_to_server)
    }
}

/// Builds the messages the game server sends to one client connection.
#[derive(Debug)]
pub struct ServerMessenger {
    pub client_connection_name: String,
}

impl ServerMessenger {
    pub fn new(client_connection_name: String) -> (messenger: ServerMessenger)
        ensures
            messenger.client_connection_name@ == client_connection_name@,
    {
        ServerMessenger { client_connection_name }
    }

    /// An ingame report of the current game state, carrying a full
    /// snapshot of `game_state`.
    pub fn make_gamestate_message(&self, game_state: &GameState) -> (msg: Option<Msg>)
        ensures
            msg is Some,
            msg->0@ == (MsgView {
                msg_type: MsgType::StateReport,
                phase: Phase::Ingame,
                status: MsgStatus::Success,
                errors: Seq::empty(),
                body: BodyView::State { game_data: game_state@ },
            }),
    {
        let msg_t: MsgType = MsgType::StateReport;
        let msg_h: Phase = Phase::Ingame;
        let msg_b: MsgBody = MsgBody::State { game_data: GameData::new(game_state) };
        let msg_to_server: Msg = Msg::new(msg_t, msg_h, msg_b);
        Some(msg_to_server)
    }
}

} // verus!
