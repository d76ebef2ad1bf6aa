//! Connection-endpoint descriptions: the `host:port` addresses a client
//! dials and a server listens on. Opening sockets, reading terminals
//! and spawning threads are the surrounding transport's business and
//! live outside this crate.

use vstd::prelude::*;

use crate::chars::char_from_code;
use crate::chars::push_char;
use crate::chars::valid_code;
use crate::engine::GameState;

verus! {

/// The decimal digit character for `d` (meaningful for `d < 10`).
pub open spec fn digit_char(d: u64) -> char {
    ((48 + d) as u32) as char
}

/// The decimal rendering of `n` as characters, most significant digit
/// first, without leading zeros.
pub open spec fn dec_chars(n: u64) -> Seq<char>
    decreases n,
{
    if n < 10 {
        seq![digit_char(n)]
    } else {
        dec_chars(n / 10).push(digit_char(n % 10))
    }
}

/// Append the decimal rendering of `n` to `s`.
fn push_decimal(s: &mut String, n: u64)
    ensures
        final(s)@ == old(s)@ + dec_chars(n),
    decreases n,
{
    if n < 10 {
        let digit = char_from_code(48 + (n as u32));
        proof {
            assert(valid_code((48 + n) as u32));
        }
        push_char(s, digit.unwrap());
        proof {
            assert(s@ =~= old(s)@ + dec_chars(n));
        }
    } else {
        push_decimal(s, n / 10);
        let digit = char_from_code(48 + ((n % 10) as u32));
        proof {
            assert(valid_code((48 + n % 10) as u32));
        }
        push_char(s, digit.unwrap());
        proof {
            assert(s@ =~= old(s)@ + dec_chars(n));
        }
    }
}

/// The `host:port` address written as one string.
pub open spec fn connection_string(host: Seq<char>, port: u64) -> Seq<char> {
    host + seq![':'] + dec_chars(port)
}

/// One client endpoint: the address it will dial.
#[derive(Debug)]
pub struct Client {
    pub connection: String,
}

impl Client {
    /// An endpoint for the given host and port.
    pub fn new(host: String, port: u32) -> (client: Client)
        ensures
            client.connection@ == connection_string(host@, port as u64),
    {
        let ghost host_chars = host@;
        let mut connection = host;
        connection.append(":");
        push_decimal(&mut connection, port as u64);
        proof {
            reveal_strlit(":");
            assert(connection@ =~= connection_string(host_chars, port as u64));
        }
        Client { connection }
    }
}

/// One server endpoint: the address it listens on, the clients that
/// joined, and the games in progress.
#[derive(Debug)]
pub struct Server {
    pub client_list: Vec<Client>,
    pub game_list: Vec<GameState>,
    pub connection: String,
}

impl Server {
    /// A fresh server endpoint for the given host and port: no clients,
    /// no games.
    pub fn new(host: String, port: u32) -> (server: Server)
        ensures
            server.client_list@.len() == 0,
            server.game_list@.len() == 0,
            server.connection@ == connection_string(host@, port as u64),
    {
        let ghost host_chars = host@;
        let mut connection = host;
        connection.append(":");
        push_decimal(&mut connection, port as u64);
        proof {
            reveal_strlit(":");
            assert(connection@ =~= connection_string(host_chars, port as u64));
        }
        Server { client_list: Vec::new(), game_list: Vec::new(), connection }
    }
}

} // verus!
