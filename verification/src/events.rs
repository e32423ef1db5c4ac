//! The message layer: each frame on the wire is one tag byte, then a
//! variant-specific payload built from the primitive codecs.

use vstd::prelude::*;

pub mod client;
pub mod server;

use crate::game_types::player::PlayerReadError;
use crate::game_types::pot::PotReadError;
use crate::integer::IntegerReadError;
use crate::ser_glue::list::BasicListReadError;
use crate::ser_glue::string::StringReadError;
use crate::ser_glue::tuple::TupleReadError;

verus! {

/// The stable tag byte of a text message frame.
pub const TEXT_MESSAGE: u8 = 1;

/// The stable tag byte of a server-broadcast administrative message.
pub const ADMIN_MSG: u8 = 2;

/// The stable tag byte of an introduction frame.
pub const INTRODUCTION: u8 = 3;

/// The stable tag byte of an add-to-pot frame.
pub const ADD_TO_POT: u8 = 10;

/// The stable tag byte of a pot snapshot frame.
pub const GET_POT: u8 = 11;

/// The stable tag byte of a start-information / all-players frame.
pub const GET_ALL_PLAYERS: u8 = 20;

/// The stable tag byte of a specific-player frame.
pub const GET_SPECIFIC_PLAYER: u8 = 21;

/// Everything that can go wrong reading an event frame back.
#[derive(Debug)]
pub enum EventReadError {
    /// Content bytes were not valid UTF-8.
    InvalidString(std::string::FromUtf8Error),
    /// An integer payload failed to decode or fit.
    Integer(IntegerReadError),
    /// An unknown frame tag arrived.
    InvalidKind(u8),
    /// A string payload failed to decode.
    StringRead(StringReadError),
    /// A pot snapshot failed to decode.
    Pot(PotReadError),
    /// The all-players map failed to decode.
    ListOfPlayers(
        BasicListReadError<TupleReadError<core::convert::Infallible, PlayerReadError>>,
    ),
    /// A specific player failed to decode.
    Player(PlayerReadError),
}

} // verus!
