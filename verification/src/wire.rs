//! The byte encoding of messages: every message becomes a list of
//! unsigned numbers, the list is written as decimal numerals each ended
//! by a separator byte, and the whole frame is ended by a single
//! newline byte. The newline never occurs inside a frame, so a stream
//! receiver can read up to the first newline; decoding is proved to
//! invert encoding.

use vstd::prelude::*;
use vstd::string::StrSliceExecFns;

use crate::chars::char_from_code;
use crate::chars::lemma_char_code;
use crate::chars::push_char;
use crate::chars::valid_code;
use crate::engine::GameView;
use crate::message::BodyView;
use crate::message::GameData;
use crate::message::Msg;
use crate::message::MsgBody;
use crate::message::MsgStatus;
use crate::message::MsgType;
use crate::message::MsgView;
use crate::message::Phase;

verus! {

/// The byte that ends a whole frame: a newline.
pub const FRAME_END: u8 = 10;

/// The byte that ends each numeral inside a frame: a semicolon.
pub const NUM_END: u8 = 59;

/// Whether `b` is an ASCII decimal digit.
pub open spec fn is_digit(b: u8) -> bool {
    48 <= b <= 57
}

/// The decimal numeral for `n`, most significant digit first.
pub open spec fn dec(n: u64) -> Seq<u8>
    decreases n,
{
    if n < 10 {
        seq![(48 + n) as u8]
    } else {
        dec(n / 10) + seq![(48 + n % 10) as u8]
    }
}

/// The value of a digit string, most significant digit first.
pub open spec fn dec_val(ds: Seq<u8>) -> int
    decreases ds.len(),
{
    if ds.len() == 0 {
        0
    } else {
        dec_val(ds.drop_last()) * 10 + (ds.last() - 48)
    }
}

/// The numeral for `n` is non-empty, all digits, and reads back as `n`.
pub proof fn lemma_dec(n: u64)
    ensures
        dec(n).len() >= 1,
        forall|k: int| 0 <= k < dec(n).len() ==> is_digit(#[trigger] dec(n)[k]),
        dec_val(dec(n)) == n,
    decreases n,
{
    if n < 10 {
        assert(dec(n) =~= Seq::<u8>::empty().push((48 + n) as u8));
        assert(dec(n).drop_last() =~= Seq::<u8>::empty());
        assert(dec_val(Seq::<u8>::empty()) == 0);
        assert(dec(n).last() == (48 + n) as u8);
        assert(dec_val(dec(n)) == dec_val(dec(n).drop_last()) * 10 + (dec(n).last() - 48));
    } else {
        lemma_dec(n / 10);
        assert(dec(n).drop_last() =~= dec(n / 10));
        assert(dec(n).last() == (48 + n % 10) as u8);
        assert(dec_val(dec(n)) == dec_val(dec(n).drop_last()) * 10 + (dec(n).last() - 48));
        assert(n == (n / 10) * 10 + n % 10);
    }
}

/// A whole frame: each number as a numeral plus [`NUM_END`], then
/// [`FRAME_END`].
pub open spec fn render_nums(ns: Seq<u64>) -> Seq<u8>
    decreases ns.len(),
{
    if ns.len() == 0 {
        seq![FRAME_END]
    } else {
        dec(ns[0]) + seq![NUM_END] + render_nums(ns.drop_first())
    }
}

/// Length of the leading run of digit bytes.
pub open spec fn digits_len(b: Seq<u8>) -> nat
    decreases b.len(),
{
    if b.len() == 0 || !is_digit(b[0]) {
        0
    } else {
        (1 + digits_len(b.drop_first())) as nat
    }
}

/// `digits_len` is pinned by its first-non-digit position.
pub proof fn lemma_digits_len_is(b: Seq<u8>, k: int)
    requires
        0 <= k <= b.len(),
        forall|idx: int| 0 <= idx < k ==> is_digit(#[trigger] b[idx]),
        k == b.len() || !is_digit(b[k]),
    ensures
        digits_len(b) == k,
    decreases b.len(),
{
    if b.len() == 0 || !is_digit(b[0]) {
    } else {
        lemma_digits_len_is(b.drop_first(), k - 1);
    }
}

/// Parse a frame back into its list of numbers: `None` on anything but
/// a run of `numeral [`NUM_END`]` groups closed by exactly one
/// [`FRAME_END`] at the very end.
pub open spec fn parse_nums(b: Seq<u8>) -> Option<Seq<u64>>
    decreases b.len(),
{
    if b.len() == 0 {
        None
    } else if b[0] == FRAME_END {
        if b.len() == 1 {
            Some(Seq::empty())
        } else {
            None
        }
    } else {
        let k = digits_len(b) as int;
        if k == 0 {
            None
        } else if k < b.len() && b[k] == NUM_END {
            let v = dec_val(b.subrange(0, k));
            if v > u64::MAX {
                None
            } else {
                match parse_nums(b.subrange(k + 1, b.len() as int)) {
                    Some(ns) => Some(seq![v as u64] + ns),
                    None => None,
                }
            }
        } else {
            None
        }
    }
}

/// Decoding a rendered frame gives back exactly the numbers.
pub proof fn lemma_parse_render(ns: Seq<u64>)
    ensures
        parse_nums(render_nums(ns)) == Some(ns),
    decreases ns.len(),
{
    let b = render_nums(ns);
    if ns.len() == 0 {
        assert(b =~= seq![FRAME_END]);
        assert(parse_nums(b) == Some(Seq::<u64>::empty()));
        assert(Seq::<u64>::empty() =~= ns);
    } else {
        let d = dec(ns[0]);
        let tail = render_nums(ns.drop_first());
        lemma_dec(ns[0]);
        assert(b =~= d + seq![NUM_END] + tail);
        assert(forall|idx: int| 0 <= idx < d.len() ==> is_digit(#[trigger] b[idx]));
        assert(b[d.len() as int] == NUM_END);
        assert(!is_digit(NUM_END));
        lemma_digits_len_is(b, d.len() as int);
        assert(b.subrange(0, d.len() as int) =~= d);
        assert(b.subrange(d.len() as int + 1, b.len() as int) =~= tail);
        lemma_parse_render(ns.drop_first());
        assert(seq![ns[0]] + ns.drop_first() =~= ns);
    }
}

/// Every byte of a frame except the closing one is a digit or
/// [`NUM_END`]; the closing byte, and only it, is [`FRAME_END`].
pub proof fn lemma_render_framing(ns: Seq<u64>)
    ensures
        render_nums(ns).len() >= 1,
        render_nums(ns).last() == FRAME_END,
        forall|k: int|
            0 <= k < render_nums(ns).len() - 1 ==> #[trigger] render_nums(ns)[k] != FRAME_END,
    decreases ns.len(),
{
    if ns.len() == 0 {
    } else {
        lemma_dec(ns[0]);
        lemma_render_framing(ns.drop_first());
        let d = dec(ns[0]);
        let tail = render_nums(ns.drop_first());
        let b = render_nums(ns);
        assert(b =~= d + seq![NUM_END] + tail);
        assert forall|k: int| 0 <= k < b.len() - 1 implies #[trigger] b[k] != FRAME_END by {
            if k < d.len() {
                assert(is_digit(d[k]));
            } else if k == d.len() {
            } else {
                assert(b[k] == tail[k - d.len() - 1]);
            }
        }
    }
}

/// The number standing for a message type on the wire.
pub open spec fn type_num(t: MsgType) -> u64 {
    match t {
        MsgType::RequestMove => 0,
        MsgType::StateReport => 1,
    }
}

/// The number standing for a phase on the wire.
pub open spec fn phase_num(p: Phase) -> u64 {
    match p {
        Phase::Pregame => 0,
        Phase::Ingame => 1,
    }
}

/// The number standing for a status on the wire.
pub open spec fn status_num(s: MsgStatus) -> u64 {
    match s {
        MsgStatus::Success => 0,
        MsgStatus::Error => 1,
    }
}

/// The number standing for a boolean on the wire.
pub open spec fn bool_num(v: bool) -> u64 {
    if v {
        1
    } else {
        0
    }
}

/// A string's characters as their code points.
pub open spec fn chars_nums(s: Seq<char>) -> Seq<u64> {
    Seq::new(s.len(), |i: int| (s[i] as u32) as u64)
}

/// A string on the wire: its length, then one number per character.
pub open spec fn string_nums(s: Seq<char>) -> Seq<u64> {
    seq![s.len() as u64] + chars_nums(s)
}

/// The error list on the wire: the strings one after another (their
/// count travels just before them).
pub open spec fn errors_nums(es: Seq<Seq<char>>) -> Seq<u64>
    decreases es.len(),
{
    if es.len() == 0 {
        Seq::empty()
    } else {
        string_nums(es[0]) + errors_nums(es.drop_first())
    }
}

/// A byte string's values as numbers.
pub open spec fn bytes_nums(b: Seq<u8>) -> Seq<u64> {
    Seq::new(b.len(), |i: int| b[i] as u64)
}

/// A game snapshot on the wire: the two names, the board (length then
/// counters), the turn flag and the active flag.
pub open spec fn game_nums(g: GameView) -> Seq<u64> {
    string_nums(g.player_one) + string_nums(g.player_two) + seq![g.board.len() as u64]
        + bytes_nums(g.board) + seq![bool_num(g.player_one_turn), bool_num(g.active)]
}

/// A payload on the wire: a tag, then the variant's own numbers.
pub open spec fn body_nums(v: BodyView) -> Seq<u64> {
    match v {
        BodyView::Move { move_to_make } => seq![0u64, move_to_make as u64],
        BodyView::State { game_data } => seq![1u64] + game_nums(game_data),
        BodyView::Name { name } => seq![2u64] + string_nums(name),
    }
}

/// A whole message on the wire: the three envelope tags, the error
/// count and the errors, then the payload.
pub open spec fn msg_nums(m: MsgView) -> Seq<u64> {
    seq![type_num(m.msg_type), phase_num(m.phase), status_num(m.status), m.errors.len() as u64]
        + errors_nums(m.errors) + body_nums(m.body)
}

/// The side conditions under which a message value fits on the wire:
/// every length must fit the wire's number width. Every `Msg` held in
/// memory satisfies them.
pub open spec fn msg_wf(m: MsgView) -> bool {
    &&& m.errors.len() <= u64::MAX
    &&& forall|i: int| 0 <= i < m.errors.len() ==> #[trigger] m.errors[i].len() <= u64::MAX
    &&& match m.body {
        BodyView::Move { move_to_make } => true,
        BodyView::State { game_data } => {
            &&& game_data.player_one.len() <= u64::MAX
            &&& game_data.player_two.len() <= u64::MAX
            &&& game_data.board.len() <= u64::MAX
        },
        BodyView::Name { name } => name.len() <= u64::MAX,
    }
}

/// Read one number.
pub open spec fn take_num(ns: Seq<u64>) -> Option<(u64, Seq<u64>)> {
    if ns.len() >= 1 {
        Some((ns[0], ns.drop_first()))
    } else {
        None
    }
}

/// Whether the number `c` is the code of some character.
pub open spec fn num_is_char(c: u64) -> bool {
    c < 0xD800 || (0xE000 <= c && c <= 0x10FFFF)
}

/// Read `k` characters.
pub open spec fn take_chars(ns: Seq<u64>, k: nat) -> Option<(Seq<char>, Seq<u64>)>
    decreases k,
{
    if k == 0 {
        Some((Seq::empty(), ns))
    } else {
        match take_num(ns) {
            None => None,
            Some((c, rest)) => if num_is_char(c) {
                match take_chars(rest, (k - 1) as nat) {
                    None => None,
                    Some((s, rest2)) => Some((seq![(c as u32) as char] + s, rest2)),
                }
            } else {
                None
            },
        }
    }
}

/// Read a length-prefixed string.
pub open spec fn take_string(ns: Seq<u64>) -> Option<(Seq<char>, Seq<u64>)> {
    match take_num(ns) {
        None => None,
        Some((len, rest)) => take_chars(rest, len as nat),
    }
}

/// Read `k` strings.
pub open spec fn take_errors(ns: Seq<u64>, k: nat) -> Option<(Seq<Seq<char>>, Seq<u64>)>
    decreases k,
{
    if k == 0 {
        Some((Seq::empty(), ns))
    } else {
        match take_string(ns) {
            None => None,
            Some((s, rest)) => match take_errors(rest, (k - 1) as nat) {
                None => None,
                Some((es, rest2)) => Some((seq![s] + es, rest2)),
            },
        }
    }
}

/// Read `k` byte values.
pub open spec fn take_bytes(ns: Seq<u64>, k: nat) -> Option<(Seq<u8>, Seq<u64>)>
    decreases k,
{
    if k == 0 {
        Some((Seq::empty(), ns))
    } else {
        match take_num(ns) {
            None => None,
            Some((v, rest)) => if v <= 255 {
                match take_bytes(rest, (k - 1) as nat) {
                    None => None,
                    Some((bs, rest2)) => Some((seq![v as u8] + bs, rest2)),
                }
            } else {
                None
            },
        }
    }
}

/// Read a boolean (0 or 1).
pub open spec fn take_bool(ns: Seq<u64>) -> Option<(bool, Seq<u64>)> {
    match take_num(ns) {
        None => None,
        Some((v, rest)) => if v <= 1 {
            Some((v == 1, rest))
        } else {
            None
        },
    }
}

/// Read a game snapshot.
pub open spec fn take_game(ns: Seq<u64>) -> Option<(GameView, Seq<u64>)> {
    match take_string(ns) {
        None => None,
        Some((p1, r1)) => match take_string(r1) {
            None => None,
            Some((p2, r2)) => match take_num(r2) {
                None => None,
                Some((blen, r3)) => match take_bytes(r3, blen as nat) {
                    None => None,
                    Some((board, r4)) => match take_bool(r4) {
                        None => None,
                        Some((turn, r5)) => match take_bool(r5) {
                            None => None,
                            Some((act, r6)) => Some(
                                (
                                    GameView {
                                        player_one: p1,
                                        player_two: p2,
                                        board,
                                        player_one_turn: turn,
                                        active: act,
                                    },
                                    r6,
                                ),
                            ),
                        },
                    },
                },
            },
        },
    }
}

/// Read a payload.
pub open spec fn take_body(ns: Seq<u64>) -> Option<(BodyView, Seq<u64>)> {
    match take_num(ns) {
        None => None,
        Some((tag, r)) => if tag == 0 {
            match take_num(r) {
                None => None,
                Some((mv, r2)) => if mv <= usize::MAX {
                    Some((BodyView::Move { move_to_make: mv as usize }, r2))
                } else {
                    None
                },
            }
        } else if tag == 1 {
            match take_game(r) {
                None => None,
                Some((g, r2)) => Some((BodyView::State { game_data: g }, r2)),
            }
        } else if tag == 2 {
            match take_string(r) {
                None => None,
                Some((s, r2)) => Some((BodyView::Name { name: s }, r2)),
            }
        } else {
            None
        },
    }
}

/// Read a whole message; every number must be consumed.
pub open spec fn msg_of_nums(ns: Seq<u64>) -> Option<MsgView> {
    match take_num(ns) {
        None => None,
        Some((t, r1)) => if t <= 1 {
            match take_num(r1) {
                None => None,
                Some((p, r2)) => if p <= 1 {
                    match take_num(r2) {
                        None => None,
                        Some((st, r3)) => if st <= 1 {
                            match take_num(r3) {
                                None => None,
                                Some((ecount, r4)) => match take_errors(r4, ecount as nat) {
                                    None => None,
                                    Some((es, r5)) => match take_body(r5) {
                                        None => None,
                                        Some((body, r6)) => if r6.len() == 0 {
                                            Some(
                                                MsgView {
                                                    msg_type: if t == 0 {
                                                        MsgType::RequestMove
                                                    } else {
                                                        MsgType::StateReport
                                                    },
                                                    phase: if p == 0 {
                                                        Phase::Pregame
                                                    } else {
                                                        Phase::Ingame
                                                    },
                                                    status: if st == 0 {
                                                        MsgStatus::Success
                                                    } else {
                                                        MsgStatus::Error
                                                    },
                                                    errors: es,
                                                    body,
                                                },
                                            )
                                        } else {
                                            None
                                        },
                                    },
                                },
                            }
                        } else {
                            None
                        },
                    }
                } else {
                    None
                },
            }
        } else {
            None
        },
    }
}

pub proof fn lemma_take_chars_inv(s: Seq<char>, rest: Seq<u64>)
    ensures
        take_chars(chars_nums(s) + rest, s.len()) == Some((s, rest)),
    decreases s.len(),
{
    let ns = chars_nums(s) + rest;
    if s.len() == 0 {
        assert(ns =~= rest);
        assert(Seq::<char>::empty() =~= s);
    } else {
        lemma_char_code(s[0]);
        assert(ns[0] == (s[0] as u32) as u64);
        assert(num_is_char(ns[0]));
        assert(ns.drop_first() =~= chars_nums(s.drop_first()) + rest);
        lemma_take_chars_inv(s.drop_first(), rest);
        assert((ns[0] as u32) as char == s[0]);
        assert(seq![s[0]] + s.drop_first() =~= s);
    }
}

pub proof fn lemma_take_string_inv(s: Seq<char>, rest: Seq<u64>)
    requires
        s.len() <= u64::MAX,
    ensures
        take_string(string_nums(s) + rest) == Some((s, rest)),
{
    let ns = string_nums(s) + rest;
    assert(ns[0] == s.len() as u64);
    assert(ns.drop_first() =~= chars_nums(s) + rest);
    lemma_take_chars_inv(s, rest);
}

pub proof fn lemma_take_errors_inv(es: Seq<Seq<char>>, rest: Seq<u64>)
    requires
        forall|i: int| 0 <= i < es.len() ==> #[trigger] es[i].len() <= u64::MAX,
    ensures
        take_errors(errors_nums(es) + rest, es.len()) == Some((es, rest)),
    decreases es.len(),
{
    let ns = errors_nums(es) + rest;
    if es.len() == 0 {
        assert(ns =~= rest);
        assert(Seq::<Seq<char>>::empty() =~= es);
    } else {
        assert(ns =~= string_nums(es[0]) + (errors_nums(es.drop_first()) + rest));
        lemma_take_string_inv(es[0], errors_nums(es.drop_first()) + rest);
        lemma_take_errors_inv(es.drop_first(), rest);
        assert(seq![es[0]] + es.drop_first() =~= es);
    }
}

pub proof fn lemma_take_bytes_inv(b: Seq<u8>, rest: Seq<u64>)
    ensures
        take_bytes(bytes_nums(b) + rest, b.len()) == Some((b, rest)),
    decreases b.len(),
{
    let ns = bytes_nums(b) + rest;
    if b.len() == 0 {
        assert(ns =~= rest);
        assert(Seq::<u8>::empty() =~= b);
    } else {
        assert(ns[0] == b[0] as u64);
        assert(ns.drop_first() =~= bytes_nums(b.drop_first()) + rest);
        lemma_take_bytes_inv(b.drop_first(), rest);
        assert(seq![b[0]] + b.drop_first() =~= b);
    }
}

pub proof fn lemma_take_game_inv(g: GameView, rest: Seq<u64>)
    requires
        g.player_one.len() <= u64::MAX,
        g.player_two.len() <= u64::MAX,
        g.board.len() <= u64::MAX,
    ensures
        take_game(game_nums(g) + rest) == Some((g, rest)),
{
    let ns = game_nums(g) + rest;
    let after_p1 = string_nums(g.player_two) + seq![g.board.len() as u64] + bytes_nums(g.board)
        + seq![bool_num(g.player_one_turn), bool_num(g.active)] + rest;
    assert(ns =~= string_nums(g.player_one) + after_p1);
    lemma_take_string_inv(g.player_one, after_p1);
    let after_p2 = seq![g.board.len() as u64] + bytes_nums(g.board) + seq![
        bool_num(g.player_one_turn),
        bool_num(g.active),
    ] + rest;
    assert(after_p1 =~= string_nums(g.player_two) + after_p2);
    lemma_take_string_inv(g.player_two, after_p2);
    let after_len = bytes_nums(g.board) + seq![bool_num(g.player_one_turn), bool_num(g.active)]
        + rest;
    assert(after_p2[0] == g.board.len() as u64);
    assert(after_p2.drop_first() =~= after_len);
    let after_board = seq![bool_num(g.player_one_turn), bool_num(g.active)] + rest;
    assert(after_len =~= bytes_nums(g.board) + after_board);
    lemma_take_bytes_inv(g.board, after_board);
    assert(after_board[0] == bool_num(g.player_one_turn));
    let after_turn = seq![bool_num(g.active)] + rest;
    assert(after_board.drop_first() =~= after_turn);
    assert(after_turn[0] == bool_num(g.active));
    assert(after_turn.drop_first() =~= rest);
    assert(take_game(ns) == Some(
        (
            GameView {
                player_one: g.player_one,
                player_two: g.player_two,
                board: g.board,
                player_one_turn: g.player_one_turn,
                active: g.active,
            },
            rest,
        ),
    ));
    assert((GameView {
        player_one: g.player_one,
        player_two: g.player_two,
        board: g.board,
        player_one_turn: g.player_one_turn,
        active: g.active,
    }) =~= g);
}

pub proof fn lemma_take_body_inv(v: BodyView, rest: Seq<u64>)
    requires
        match v {
            BodyView::Move { .. } => true,
            BodyView::State { game_data } => {
                &&& game_data.player_one.len() <= u64::MAX
                &&& game_data.player_two.len() <= u64::MAX
                &&& game_data.board.len() <= u64::MAX
            },
            BodyView::Name { name } => name.len() <= u64::MAX,
        },
    ensures
        take_body(body_nums(v) + rest) == Some((v, rest)),
{
    let ns = body_nums(v) + rest;
    match v {
        BodyView::Move { move_to_make } => {
            assert(ns[0] == 0u64);
            assert(ns.drop_first() =~= seq![move_to_make as u64] + rest);
            assert(ns.drop_first()[0] == move_to_make as u64);
            assert(ns.drop_first().drop_first() =~= rest);
        },
        BodyView::State { game_data } => {
            assert(ns[0] == 1u64);
            assert(ns.drop_first() =~= game_nums(game_data) + rest);
            lemma_take_game_inv(game_data, rest);
        },
        BodyView::Name { name } => {
            assert(ns[0] == 2u64);
            assert(ns.drop_first() =~= string_nums(name) + rest);
            lemma_take_string_inv(name, rest);
        },
    }
}

/// Reading back the numbers of a well-formed message gives exactly that
/// message.
pub proof fn lemma_msg_of_nums_inv(m: MsgView)
    requires
        msg_wf(m),
    ensures
        msg_of_nums(msg_nums(m)) == Some(m),
{
    let ns = msg_nums(m);
    let after_tags = errors_nums(m.errors) + body_nums(m.body);
    assert(ns[0] == type_num(m.msg_type));
    assert(ns.drop_first()[0] == phase_num(m.phase));
    assert(ns.drop_first().drop_first()[0] == status_num(m.status));
    assert(ns.drop_first().drop_first().drop_first()[0] == m.errors.len() as u64);
    assert(ns.drop_first().drop_first().drop_first().drop_first() =~= errors_nums(m.errors)
        + body_nums(m.body));
    lemma_take_errors_inv(m.errors, body_nums(m.body));
    assert(body_nums(m.body) =~= body_nums(m.body) + Seq::<u64>::empty());
    lemma_take_body_inv(m.body, Seq::empty());
    let decoded = msg_of_nums(ns);
    assert(decoded is Some);
    assert(decoded->0 =~= m);
}

/// The byte encoding of a message.
pub open spec fn encode_spec(m: MsgView) -> Seq<u8> {
    render_nums(msg_nums(m))
}

/// The byte decoding of a frame, `None` on malformed input.
pub open spec fn decode_spec(b: Seq<u8>) -> Option<MsgView> {
    match parse_nums(b) {
        None => None,
        Some(ns) => msg_of_nums(ns),
    }
}

/// The round trip: decoding an encoded message gives the message back,
/// field for field — no payload, name, error string, board counter or
/// flag is lost or changed on the wire.
pub proof fn lemma_round_trip(m: MsgView)
    requires
        msg_wf(m),
    ensures
        decode_spec(encode_spec(m)) == Some(m),
{
    lemma_parse_render(msg_nums(m));
    lemma_msg_of_nums_inv(m);
}

/// Append the decimal numeral of `n` to `out`.
fn push_dec(out: &mut Vec<u8>, n: u64)
    ensures
        final(out)@ == old(out)@ + dec(n),
    decreases n,
{
    if n < 10 {
        out.push(48 + (n as u8));
        proof {
            assert(out@ =~= old(out)@ + dec(n));
        }
    } else {
        push_dec(out, n / 10);
        out.push(48 + ((n % 10) as u8));
        proof {
            assert(out@ =~= old(out)@ + dec(n));
        }
    }
}

/// Write the whole frame for `ns`: numerals with separators, closed by
/// the newline byte.
fn render_frame(ns: &Vec<u64>) -> (out: Vec<u8>)
    ensures
        out@ == render_nums(ns@),
{
    let mut out: Vec<u8> = Vec::new();
    let mut i: usize = 0;
    proof {
        assert(ns@.subrange(0, ns@.len() as int) =~= ns@);
        assert(out@ + render_nums(ns@) =~= render_nums(ns@));
    }
    while i < ns.len()
        invariant
            i <= ns@.len(),
            out@ + render_nums(ns@.subrange(i as int, ns@.len() as int)) == render_nums(ns@),
        decreases ns@.len() - i,
    {
        let ghost pre = out@;
        let ghost suffix = ns@.subrange(i as int, ns@.len() as int);
        push_dec(&mut out, ns[i]);
        out.push(NUM_END);
        i = i + 1;
        proof {
            assert(suffix[0] == ns@[i - 1]);
            assert(suffix.drop_first() =~= ns@.subrange(i as int, ns@.len() as int));
            assert(render_nums(suffix) == dec(ns@[i - 1]) + seq![NUM_END] + render_nums(
                ns@.subrange(i as int, ns@.len() as int),
            ));
            assert(out@ =~= pre + (dec(ns@[i - 1]) + seq![NUM_END]));
            assert(out@ + render_nums(ns@.subrange(i as int, ns@.len() as int)) =~= pre
                + render_nums(suffix));
        }
    }
    out.push(FRAME_END);
    proof {
        assert(ns@.subrange(ns@.len() as int, ns@.len() as int) =~= Seq::<u64>::empty());
        assert(render_nums(Seq::<u64>::empty()) =~= seq![FRAME_END]);
        assert(out@ =~= render_nums(ns@));
    }
    out
}

/// Appending one error string extends the error-list numbers at the
/// end.
pub proof fn lemma_errors_nums_snoc(es: Seq<Seq<char>>, x: Seq<char>)
    ensures
        errors_nums(es.push(x)) == errors_nums(es) + string_nums(x),
    decreases es.len(),
{
    if es.len() == 0 {
        assert(es.push(x)[0] =~= x);
        assert(es.push(x).drop_first() =~= Seq::<Seq<char>>::empty());
        assert(errors_nums(Seq::<Seq<char>>::empty()) == Seq::<u64>::empty());
        assert(errors_nums(es.push(x)) == string_nums(x) + Seq::<u64>::empty());
        assert(errors_nums(es.push(x)) =~= errors_nums(es) + string_nums(x));
    } else {
        assert(es.push(x)[0] =~= es[0]);
        assert(es.push(x).drop_first() =~= es.drop_first().push(x));
        lemma_errors_nums_snoc(es.drop_first(), x);
        assert(errors_nums(es.push(x)) =~= errors_nums(es) + string_nums(x));
    }
}

/// Append the wire numbers of the string `s` to `ns`.
fn push_string_nums(ns: &mut Vec<u64>, s: &str)
    ensures
        final(ns)@ == old(ns)@ + string_nums(s@),
        s@.len() <= u64::MAX,
{
    let len = s.unicode_len();
    ns.push(len as u64);
    let mut i: usize = 0;
    while i < len
        invariant
            i <= len,
            len as nat == s@.len(),
            ns@ == old(ns)@ + seq![s@.len() as u64] + chars_nums(s@).subrange(0, i as int),
        decreases len - i,
    {
        let ghost pre = ns@;
        let c = s.get_char(i);
        ns.push((c as u32) as u64);
        i = i + 1;
        proof {
            assert(chars_nums(s@).subrange(0, i as int) =~= chars_nums(s@).subrange(
                0,
                i as int - 1,
            ).push((s@[i as int - 1] as u32) as u64));
            assert(ns@ =~= old(ns)@ + seq![s@.len() as u64] + chars_nums(s@).subrange(0, i as int));
        }
    }
    proof {
        assert(chars_nums(s@).subrange(0, s@.len() as int) =~= chars_nums(s@));
        assert(ns@ =~= old(ns)@ + string_nums(s@));
    }
}

/// Append the wire numbers of the error list to `ns`.
fn push_errors_nums(ns: &mut Vec<u64>, errors: &Vec<String>) -> (count: usize)
    ensures
        final(ns)@ == old(ns)@ + errors_nums(errors.deep_view()),
        count == errors@.len(),
        forall|i: int|
            0 <= i < errors.deep_view().len() ==> #[trigger] errors.deep_view()[i].len()
                <= u64::MAX,
{
    let mut e: usize = 0;
    while e < errors.len()
        invariant
            e <= errors@.len(),
            ns@ == old(ns)@ + errors_nums(errors.deep_view().subrange(0, e as int)),
            forall|i: int|
                0 <= i < e ==> #[trigger] errors.deep_view()[i].len() <= u64::MAX,
        decreases errors@.len() - e,
    {
        let ghost done = errors.deep_view().subrange(0, e as int);
        proof {
            assert(errors_nums(Seq::<Seq<char>>::empty()) == Seq::<u64>::empty());
            assert(done.len() == 0 ==> errors_nums(done) =~= Seq::<u64>::empty());
        }
        push_string_nums(ns, errors[e].as_str());
        proof {
            assert(errors.deep_view()[e as int] == errors@[e as int]@);
            assert(errors.deep_view().subrange(0, e as int + 1) =~= done.push(
                errors.deep_view()[e as int],
            ));
            lemma_errors_nums_snoc(done, errors.deep_view()[e as int]);
            assert(ns@ =~= old(ns)@ + errors_nums(errors.deep_view().subrange(0, e as int + 1)));
        }
        e = e + 1;
    }
    proof {
        assert(errors.deep_view().subrange(0, errors.deep_view().len() as int) =~= errors.deep_view());
    }
    e
}

/// Append the wire numbers of a game snapshot to `ns`.
fn push_game_nums(ns: &mut Vec<u64>, game_data: &GameData)
    ensures
        final(ns)@ == old(ns)@ + game_nums(game_data@),
        game_data@.player_one.len() <= u64::MAX,
        game_data@.player_two.len() <= u64::MAX,
        game_data@.board.len() <= u64::MAX,
{
    push_string_nums(ns, game_data.player_one.as_str());
    push_string_nums(ns, game_data.player_two.as_str());
    ns.push(game_data.game_board.len() as u64);
    let ghost with_heads = old(ns)@ + string_nums(game_data@.player_one) + string_nums(
        game_data@.player_two,
    ) + seq![game_data@.board.len() as u64];
    proof {
        assert(ns@ =~= with_heads);
    }
    let mut bi: usize = 0;
    while bi < game_data.game_board.len()
        invariant
            bi <= game_data.game_board@.len(),
            ns@ == with_heads + bytes_nums(game_data@.board).subrange(0, bi as int),
            game_data@.board == game_data.game_board@,
        decreases game_data.game_board@.len() - bi,
    {
        ns.push(game_data.game_board[bi] as u64);
        bi = bi + 1;
        proof {
            assert(bytes_nums(game_data@.board).subrange(0, bi as int) =~= bytes_nums(
                game_data@.board,
            ).subrange(0, bi as int - 1).push(game_data@.board[bi as int - 1] as u64));
            assert(ns@ =~= with_heads + bytes_nums(game_data@.board).subrange(0, bi as int));
        }
    }
    ns.push(if game_data.player_one_turn { 1 } else { 0 });
    ns.push(if game_data.active { 1 } else { 0 });
    proof {
        assert(bytes_nums(game_data@.board).subrange(
            0,
            game_data@.board.len() as int,
        ) =~= bytes_nums(game_data@.board));
        assert(ns@ =~= old(ns)@ + game_nums(game_data@));
    }
}

/// Write `msg` as one newline-closed frame. The closing newline is the
/// only newline byte in the frame, so the encoding frames itself on a
/// plain byte stream.
#[verifier::rlimit(100)]
pub fn encode_msg(msg: &Msg) -> (out: Vec<u8>)
    ensures
        msg_wf(msg@),
        out@ == encode_spec(msg@),
        out@.len() >= 1,
        out@.last() == FRAME_END,
        forall|k: int| 0 <= k < out@.len() - 1 ==> out@[k] != FRAME_END,
{
    let mut ns: Vec<u64> = Vec::new();
    match msg.msg_type {
        MsgType::RequestMove => ns.push(0),
        MsgType::StateReport => ns.push(1),
    }
    match msg.phase {
        Phase::Pregame => ns.push(0),
        Phase::Ingame => ns.push(1),
    }
    match msg.status {
        MsgStatus::Success => ns.push(0),
        MsgStatus::Error => ns.push(1),
    }
    ns.push(msg.errors.len() as u64);
    let ghost tags = seq![
        type_num(msg@.msg_type),
        phase_num(msg@.phase),
        status_num(msg@.status),
        msg@.errors.len() as u64,
    ];
    proof {
        assert(ns@ =~= tags);
    }
    push_errors_nums(&mut ns, &msg.errors);
    let ghost envelope = tags + errors_nums(msg@.errors);
    match &msg.body {
        MsgBody::Move { move_to_make } => {
            ns.push(0);
            ns.push(*move_to_make as u64);
            proof {
                assert(ns@ =~= envelope + body_nums(msg@.body));
            }
        },
        MsgBody::State { game_data } => {
            ns.push(1);
            push_game_nums(&mut ns, game_data);
            proof {
                assert(ns@ =~= envelope + body_nums(msg@.body));
            }
        },
        MsgBody::Name { name } => {
            ns.push(2);
            push_string_nums(&mut ns, name.as_str());
            proof {
                assert(ns@ =~= envelope + body_nums(msg@.body));
            }
        },
    }
    proof {
        assert(ns@ =~= msg_nums(msg@));
        lemma_render_framing(msg_nums(msg@));
    }
    render_frame(&ns)
}

/// Read a frame back into its numbers; `None` exactly where the frame
/// grammar of [`parse_nums`] is broken.
fn parse_frame(b: &[u8]) -> (r: Option<Vec<u64>>)
    ensures
        match r {
            Some(ns) => parse_nums(b@) == Some(ns@),
            None => parse_nums(b@) is None,
        },
{
    let mut acc: Vec<u64> = Vec::new();
    let mut i: usize = 0;
    proof {
        assert(b@.subrange(0, b@.len() as int) =~= b@);
        assert forall|ns: Seq<u64>|
            parse_nums(b@.subrange(0, b@.len() as int)) == Some(ns) implies parse_nums(b@)
            == Some(acc@ + ns) by {
            assert(acc@ + ns =~= ns);
        }
    }
    loop
        invariant
            i <= b@.len(),
            forall|ns: Seq<u64>|
                parse_nums(b@.subrange(i as int, b@.len() as int)) == Some(ns) ==> parse_nums(b@)
                    == Some(acc@ + ns),
            parse_nums(b@.subrange(i as int, b@.len() as int)) is None ==> parse_nums(b@) is None,
        decreases b@.len() - i,
    {
        let ghost suffix = b@.subrange(i as int, b@.len() as int);
        if i >= b.len() {
            return None;
        }
        proof {
            assert(suffix[0] == b@[i as int]);
        }
        if b[i] == FRAME_END {
            if i + 1 == b.len() {
                proof {
                    assert(suffix.len() == 1);
                    assert(parse_nums(suffix) == Some(Seq::<u64>::empty()));
                    assert(acc@ + Seq::<u64>::empty() =~= acc@);
                }
                return Some(acc);
            } else {
                proof {
                    assert(suffix.len() != 1);
                    assert(parse_nums(suffix) is None);
                }
                return None;
            }
        }
        // scan the digit run, tracking its value and overflow
        let mut j: usize = i;
        let mut val: u64 = 0;
        let mut over: bool = false;
        while j < b.len() && b[j] >= 48 && b[j] <= 57
            invariant
                i <= j <= b@.len(),
                forall|idx: int| i <= idx < j ==> is_digit(#[trigger] b@[idx]),
                !over ==> val == dec_val(b@.subrange(i as int, j as int)),
                over ==> dec_val(b@.subrange(i as int, j as int)) > u64::MAX,
            decreases b@.len() - j,
        {
            let d: u64 = (b[j] - 48) as u64;
            let ghost run = b@.subrange(i as int, j as int);
            proof {
                assert(b@.subrange(i as int, j as int + 1).drop_last() =~= run);
                assert(b@.subrange(i as int, j as int + 1).last() == b@[j as int]);
                assert(dec_val(b@.subrange(i as int, j as int + 1)) == dec_val(run) * 10 + (b@[
                    j as int] - 48));
            }
            if over || val > (u64::MAX - d) / 10 {
                proof {
                    if !over {
                        assert(val * 10 + d > u64::MAX) by (nonlinear_arith)
                            requires
                                val > (u64::MAX - d) / 10,
                                d <= 9,
                        ;
                    } else {
                        assert(dec_val(run) * 10 + d > u64::MAX) by (nonlinear_arith)
                            requires
                                dec_val(run) > u64::MAX,
                                d >= 0,
                        ;
                    }
                }
                over = true;
            } else {
                proof {
                    assert(val * 10 + d <= u64::MAX) by (nonlinear_arith)
                        requires
                            val <= (u64::MAX - d) / 10,
                            d <= 9,
                    ;
                }
                val = val * 10 + d;
            }
            j = j + 1;
        }
        proof {
            lemma_digits_len_is(suffix, j - i);
            assert(digits_len(suffix) == j - i);
        }
        if j == i {
            // no digits where a numeral is due
            proof {
                assert(parse_nums(suffix) is None);
            }
            return None;
        }
        if j == b.len() || b[j] != NUM_END || over {
            proof {
                assert(suffix.subrange(0, j - i) =~= b@.subrange(i as int, j as int));
                if j < b@.len() {
                    assert(suffix[j - i] == b@[j as int]);
                }
                assert(parse_nums(suffix) is None);
            }
            return None;
        }
        let ghost acc0 = acc@;
        proof {
            assert(suffix.subrange(0, j - i) =~= b@.subrange(i as int, j as int));
            assert(suffix[j - i] == b@[j as int]);
            assert(suffix.subrange(j - i + 1, suffix.len() as int) =~= b@.subrange(
                j as int + 1,
                b@.len() as int,
            ));
            assert(parse_nums(suffix) == (match parse_nums(
                b@.subrange(j as int + 1, b@.len() as int),
            ) {
                Some(ns) => Some(seq![val] + ns),
                None => None::<Seq<u64>>,
            }));
            assert forall|ns: Seq<u64>|
                parse_nums(b@.subrange(j as int + 1, b@.len() as int)) == Some(
                    ns,
                ) implies parse_nums(b@) == Some(acc0.push(val) + ns) by {
                assert(parse_nums(suffix) == Some(seq![val] + ns));
                assert(acc0 + (seq![val] + ns) =~= acc0.push(val) + ns);
            }
        }
        acc.push(val);
        i = j + 1;
    }
}

/// Read `count` characters starting at `start`, mirroring
/// [`take_chars`].
fn read_chars(ns: &Vec<u64>, start: usize, count: u64) -> (r: Option<(String, usize)>)
    requires
        start <= ns@.len(),
    ensures
        match r {
            Some(sj) => {
                &&& start <= sj.1 <= ns@.len()
                &&& take_chars(ns@.subrange(start as int, ns@.len() as int), count as nat) == Some(
                    (sj.0@, ns@.subrange(sj.1 as int, ns@.len() as int)),
                )
            },
            None => take_chars(
                ns@.subrange(start as int, ns@.len() as int),
                count as nat,
            ) is None,
        },
{
    let mut built = String::new();
    let mut cur: usize = start;
    let mut done: u64 = 0;
    while done < count
        invariant
            start <= cur <= ns@.len(),
            done <= count,
            ({
                let whole = take_chars(
                    ns@.subrange(start as int, ns@.len() as int),
                    count as nat,
                );
                let remaining = take_chars(
                    ns@.subrange(cur as int, ns@.len() as int),
                    (count - done) as nat,
                );
                match remaining {
                    Some(p) => whole == Some((built@ + p.0, p.1)),
                    None => whole is None,
                }
            }),
        decreases count - done,
    {
        let ghost suffix = ns@.subrange(cur as int, ns@.len() as int);
        let ghost rem = (count - done) as nat;
        if cur >= ns.len() {
            proof {
                assert(suffix.len() == 0);
                assert(take_chars(suffix, rem) is None);
            }
            return None;
        }
        let v = ns[cur];
        proof {
            assert(suffix[0] == ns@[cur as int]);
            assert(suffix.drop_first() =~= ns@.subrange(cur as int + 1, ns@.len() as int));
        }
        if v >= 0xD800 && (v < 0xE000 || v > 0x10FFFF) {
            proof {
                assert(!num_is_char(v));
                assert(take_chars(suffix, rem) is None);
            }
            return None;
        }
        let maybe_c = char_from_code(v as u32);
        proof {
            assert(num_is_char(v));
            assert(v <= 0x10FFFF);
            assert(valid_code(v as u32));
        }
        let c = maybe_c.unwrap();
        let ghost built0 = built@;
        push_char(&mut built, c);
        proof {
            assert(c == (v as u32) as char);
            let next = take_chars(ns@.subrange(cur as int + 1, ns@.len() as int), (rem - 1) as nat);
            match next {
                Some(p) => {
                    assert(take_chars(suffix, rem) == Some((seq![c] + p.0, p.1)));
                    assert(built0 + (seq![c] + p.0) =~= built0.push(c) + p.0);
                },
                None => {
                    assert(take_chars(suffix, rem) is None);
                },
            }
        }
        cur = cur + 1;
        done = done + 1;
    }
    proof {
        let tail = ns@.subrange(cur as int, ns@.len() as int);
        assert(take_chars(tail, 0) == Some((Seq::<char>::empty(), tail)));
        assert(built@ + Seq::<char>::empty() =~= built@);
    }
    Some((built, cur))
}

/// Read one length-prefixed string starting at `start`, mirroring
/// [`take_string`].
fn read_string(ns: &Vec<u64>, start: usize) -> (r: Option<(String, usize)>)
    requires
        start <= ns@.len(),
    ensures
        match r {
            Some(sj) => {
                &&& start <= sj.1 <= ns@.len()
                &&& take_string(ns@.subrange(start as int, ns@.len() as int)) == Some(
                    (sj.0@, ns@.subrange(sj.1 as int, ns@.len() as int)),
                )
            },
            None => take_string(ns@.subrange(start as int, ns@.len() as int)) is None,
        },
{
    let ghost suffix = ns@.subrange(start as int, ns@.len() as int);
    if start >= ns.len() {
        proof {
            assert(suffix.len() == 0);
        }
        return None;
    }
    let len_num = ns[start];
    proof {
        assert(suffix[0] == ns@[start as int]);
        assert(suffix.drop_first() =~= ns@.subrange(start as int + 1, ns@.len() as int));
    }
    read_chars(ns, start + 1, len_num)
}

/// Read `count` byte values starting at `start`, mirroring
/// [`take_bytes`].
fn read_bytes(ns: &Vec<u64>, start: usize, count: u64) -> (r: Option<(Vec<u8>, usize)>)
    requires
        start <= ns@.len(),
    ensures
        match r {
            Some(bj) => {
                &&& start <= bj.1 <= ns@.len()
                &&& take_bytes(ns@.subrange(start as int, ns@.len() as int), count as nat) == Some(
                    (bj.0@, ns@.subrange(bj.1 as int, ns@.len() as int)),
                )
            },
            None => take_bytes(
                ns@.subrange(start as int, ns@.len() as int),
                count as nat,
            ) is None,
        },
{
    let mut built: Vec<u8> = Vec::new();
    let mut cur: usize = start;
    let mut done: u64 = 0;
    while done < count
        invariant
            start <= cur <= ns@.len(),
            done <= count,
            ({
                let whole = take_bytes(
                    ns@.subrange(start as int, ns@.len() as int),
                    count as nat,
                );
                let remaining = take_bytes(
                    ns@.subrange(cur as int, ns@.len() as int),
                    (count - done) as nat,
                );
                match remaining {
                    Some(p) => whole == Some((built@ + p.0, p.1)),
                    None => whole is None,
                }
            }),
        decreases count - done,
    {
        let ghost suffix = ns@.subrange(cur as int, ns@.len() as int);
        let ghost rem = (count - done) as nat;
        if cur >= ns.len() {
            proof {
                assert(suffix.len() == 0);
                assert(take_bytes(suffix, rem) is None);
            }
            return None;
        }
        let v = ns[cur];
        proof {
            assert(suffix[0] == ns@[cur as int]);
            assert(suffix.drop_first() =~= ns@.subrange(cur as int + 1, ns@.len() as int));
        }
        if v > 255 {
            proof {
                assert(take_bytes(suffix, rem) is None);
            }
            return None;
        }
        let ghost built0 = built@;
        built.push(v as u8);
        proof {
            let next = take_bytes(ns@.subrange(cur as int + 1, ns@.len() as int), (rem - 1) as nat);
            match next {
                Some(p) => {
                    assert(take_bytes(suffix, rem) == Some((seq![(v as u8)] + p.0, p.1)));
                    assert(built0 + (seq![(v as u8)] + p.0) =~= built0.push(v as u8) + p.0);
                },
                None => {
                    assert(take_bytes(suffix, rem) is None);
                },
            }
        }
        cur = cur + 1;
        done = done + 1;
    }
    proof {
        let tail = ns@.subrange(cur as int, ns@.len() as int);
        assert(take_bytes(tail, 0) == Some((Seq::<u8>::empty(), tail)));
        assert(built@ + Seq::<u8>::empty() =~= built@);
    }
    Some((built, cur))
}

/// Read a boolean starting at `start`, mirroring [`take_bool`].
fn read_bool(ns: &Vec<u64>, start: usize) -> (r: Option<(bool, usize)>)
    requires
        start <= ns@.len(),
    ensures
        match r {
            Some(bj) => {
                &&& start <= bj.1 <= ns@.len()
                &&& take_bool(ns@.subrange(start as int, ns@.len() as int)) == Some(
                    (bj.0, ns@.subrange(bj.1 as int, ns@.len() as int)),
                )
            },
            None => take_bool(ns@.subrange(start as int, ns@.len() as int)) is None,
        },
{
    let ghost suffix = ns@.subrange(start as int, ns@.len() as int);
    if start >= ns.len() {
        proof {
            assert(suffix.len() == 0);
        }
        return None;
    }
    let v = ns[start];
    proof {
        assert(suffix[0] == ns@[start as int]);
        assert(suffix.drop_first() =~= ns@.subrange(start as int + 1, ns@.len() as int));
    }
    if v > 1 {
        return None;
    }
    Some((v == 1, start + 1))
}

/// Read a game snapshot starting at `start`, mirroring [`take_game`].
fn read_game(ns: &Vec<u64>, start: usize) -> (r: Option<(GameData, usize)>)
    requires
        start <= ns@.len(),
    ensures
        match r {
            Some(gj) => {
                &&& start <= gj.1 <= ns@.len()
                &&& take_game(ns@.subrange(start as int, ns@.len() as int)) == Some(
                    (gj.0@, ns@.subrange(gj.1 as int, ns@.len() as int)),
                )
            },
            None => take_game(ns@.subrange(start as int, ns@.len() as int)) is None,
        },
{
    let (player_one, i1) = match read_string(ns, start) {
        Some(sj) => sj,
        None => {
            return None;
        },
    };
    let (player_two, i2) = match read_string(ns, i1) {
        Some(sj) => sj,
        None => {
            return None;
        },
    };
    let ghost after_p2 = ns@.subrange(i2 as int, ns@.len() as int);
    if i2 >= ns.len() {
        proof {
            assert(after_p2.len() == 0);
        }
        return None;
    }
    let board_len = ns[i2];
    proof {
        assert(after_p2[0] == ns@[i2 as int]);
        assert(after_p2.drop_first() =~= ns@.subrange(i2 as int + 1, ns@.len() as int));
    }
    let (game_board, i3) = match read_bytes(ns, i2 + 1, board_len) {
        Some(bj) => bj,
        None => {
            return None;
        },
    };
    let (player_one_turn, i4) = match read_bool(ns, i3) {
        Some(bj) => bj,
        None => {
            return None;
        },
    };
    let (active, i5) = match read_bool(ns, i4) {
        Some(bj) => bj,
        None => {
            return None;
        },
    };
    let data = GameData { player_one, player_two, game_board, player_one_turn, active };
    proof {
        let parsed = take_game(ns@.subrange(start as int, ns@.len() as int));
        assert(parsed is Some);
        let pair = parsed->0;
        assert(pair.0 =~= data@);
    }
    Some((data, i5))
}

/// Read a payload starting at `start`, mirroring [`take_body`].
fn read_body(ns: &Vec<u64>, start: usize) -> (r: Option<(MsgBody, usize)>)
    requires
        start <= ns@.len(),
    ensures
        match r {
            Some(bj) => {
                &&& start <= bj.1 <= ns@.len()
                &&& take_body(ns@.subrange(start as int, ns@.len() as int)) == Some(
                    (bj.0@, ns@.subrange(bj.1 as int, ns@.len() as int)),
                )
            },
            None => take_body(ns@.subrange(start as int, ns@.len() as int)) is None,
        },
{
    let ghost suffix = ns@.subrange(start as int, ns@.len() as int);
    if start >= ns.len() {
        proof {
            assert(suffix.len() == 0);
        }
        return None;
    }
    let tag = ns[start];
    proof {
        assert(suffix[0] == ns@[start as int]);
        assert(suffix.drop_first() =~= ns@.subrange(start as int + 1, ns@.len() as int));
    }
    if tag == 0 {
        let ghost after_tag = ns@.subrange(start as int + 1, ns@.len() as int);
        if start + 1 >= ns.len() {
            proof {
                assert(after_tag.len() == 0);
            }
            return None;
        }
        let mv = ns[start + 1];
        proof {
            assert(after_tag[0] == ns@[start as int + 1]);
            assert(after_tag.drop_first() =~= ns@.subrange(start as int + 2, ns@.len() as int));
        }
        if mv > (usize::MAX as u64) {
            return None;
        }
        Some((MsgBody::Move { move_to_make: mv as usize }, start + 2))
    } else if tag == 1 {
        match read_game(ns, start + 1) {
            Some(gj) => Some((MsgBody::State { game_data: gj.0 }, gj.1)),
            None => None,
        }
    } else if tag == 2 {
        match read_string(ns, start + 1) {
            Some(sj) => Some((MsgBody::Name { name: sj.0 }, sj.1)),
            None => None,
        }
    } else {
        None
    }
}

/// Rebuild a message from a frame's numbers, mirroring [`msg_of_nums`].
#[verifier::loop_isolation(false)]
fn msg_from_nums(ns: &Vec<u64>) -> (r: Option<Msg>)
    ensures
        match r {
            Some(m) => msg_of_nums(ns@) == Some(m@),
            None => msg_of_nums(ns@) is None,
        },
{
    proof {
        assert(ns@.subrange(0, ns@.len() as int) =~= ns@);
    }
    if ns.len() < 4 {
        proof {
            if ns@.len() >= 1 {
                assert(ns@.drop_first() =~= ns@.subrange(1, ns@.len() as int));
                if ns@.len() >= 2 {
                    assert(ns@.subrange(1, ns@.len() as int).drop_first() =~= ns@.subrange(
                        2,
                        ns@.len() as int,
                    ));
                    if ns@.len() >= 3 {
                        assert(ns@.subrange(2, ns@.len() as int).drop_first() =~= ns@.subrange(
                            3,
                            ns@.len() as int,
                        ));
                        assert(ns@.subrange(3, ns@.len() as int).len() == 0);
                    }
                }
            }
        }
        return None;
    }
    let t = ns[0];
    let p = ns[1];
    let st = ns[2];
    let ecount = ns[3];
    proof {
        assert(ns@.drop_first() =~= ns@.subrange(1, ns@.len() as int));
        assert(ns@.subrange(1, ns@.len() as int).drop_first() =~= ns@.subrange(
            2,
            ns@.len() as int,
        ));
        assert(ns@.subrange(2, ns@.len() as int).drop_first() =~= ns@.subrange(
            3,
            ns@.len() as int,
        ));
        assert(ns@.subrange(3, ns@.len() as int).drop_first() =~= ns@.subrange(
            4,
            ns@.len() as int,
        ));
        assert(ns@.subrange(1, ns@.len() as int)[0] == ns@[1]);
        assert(ns@.subrange(2, ns@.len() as int)[0] == ns@[2]);
        assert(ns@.subrange(3, ns@.len() as int)[0] == ns@[3]);
    }
    if t > 1 || p > 1 || st > 1 {
        return None;
    }
    let msg_type = if t == 0 {
        MsgType::RequestMove
    } else {
        MsgType::StateReport
    };
    let phase = if p == 0 {
        Phase::Pregame
    } else {
        Phase::Ingame
    };
    let status = if st == 0 {
        MsgStatus::Success
    } else {
        MsgStatus::Error
    };
    // the error strings
    let mut errors: Vec<String> = Vec::new();
    let mut cur: usize = 4;
    let mut done: u64 = 0;
    proof {
        let whole = take_errors(ns@.subrange(4, ns@.len() as int), ecount as nat);
        match whole {
            Some(p2) => {
                assert(errors.deep_view() =~= Seq::<Seq<char>>::empty());
                assert(errors.deep_view() + p2.0 =~= p2.0);
            },
            None => {},
        }
    }
    while done < ecount
        invariant
            4 <= cur <= ns@.len(),
            done <= ecount,
            ({
                let whole = take_errors(ns@.subrange(4, ns@.len() as int), ecount as nat);
                let remaining = take_errors(
                    ns@.subrange(cur as int, ns@.len() as int),
                    (ecount - done) as nat,
                );
                match remaining {
                    Some(p2) => whole == Some((errors.deep_view() + p2.0, p2.1)),
                    None => whole is None,
                }
            }),
        decreases ecount - done,
    {
        let ghost suffix = ns@.subrange(cur as int, ns@.len() as int);
        let ghost rem = (ecount - done) as nat;
        let (err, j) = match read_string(ns, cur) {
            Some(sj) => sj,
            None => {
                proof {
                    assert(take_errors(suffix, rem) is None);
                }
                return None;
            },
        };
        let ghost errors0 = errors.deep_view();
        errors.push(err);
        proof {
            assert(errors.deep_view() =~= errors0.push(err@));
            let next = take_errors(ns@.subrange(j as int, ns@.len() as int), (rem - 1) as nat);
            match next {
                Some(p2) => {
                    assert(take_errors(suffix, rem) == Some((seq![err@] + p2.0, p2.1)));
                    assert(errors0 + (seq![err@] + p2.0) =~= errors0.push(err@) + p2.0);
                },
                None => {
                    assert(take_errors(suffix, rem) is None);
                },
            }
        }
        cur = j;
        done = done + 1;
    }
    proof {
        let tail = ns@.subrange(cur as int, ns@.len() as int);
        assert(take_errors(tail, 0) == Some((Seq::<Seq<char>>::empty(), tail)));
        assert(errors.deep_view() + Seq::<Seq<char>>::empty() =~= errors.deep_view());
    }
    // the payload, which must use up the frame
    let (body, end) = match read_body(ns, cur) {
        Some(bj) => bj,
        None => {
            return None;
        },
    };
    if end != ns.len() {
        proof {
            assert(ns@.subrange(end as int, ns@.len() as int).len() != 0);
        }
        return None;
    }
    let msg = Msg { msg_type, phase, status, errors, body };
    proof {
        assert(ns@.subrange(end as int, ns@.len() as int).len() == 0);
        let parsed = msg_of_nums(ns@);
        assert(parsed is Some);
        assert(parsed->0 =~= msg@);
    }
    Some(msg)
}

/// Decode one newline-closed frame back into a message; `None` on a
/// malformed frame (stray bytes, a bad numeral, a bad tag, a lost
/// count, or trailing garbage).
pub fn decode_msg(bytes: &[u8]) -> (r: Option<Msg>)
    ensures
        match r {
            Some(m) => decode_spec(bytes@) == Some(m@),
            None => decode_spec(bytes@) is None,
        },
{
    let ns = match parse_frame(bytes) {
        Some(ns) => ns,
        None => {
            return None;
        },
    };
    msg_from_nums(&ns)
}

} // verus!
