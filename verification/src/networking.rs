//! Value types of the session layer's wire vocabulary. The core neither
//! produces nor consumes the session-level messages; it only fills
//! `ServerMessage::PlaceResponse` values when reporting a move's outcome.

use vstd::prelude::*;
use crate::logic::{Board, InvalidMove, Move, Position, Stone};

verus! {

/// A participant in a session, as the session layer tracks it.
#[derive(Clone, Debug)]
pub struct Player {
    pub username: String,
    pub score: u32,
    pub stone: Stone,
}

/// A game room: its roster, whose turn it is, who the local player is, and
/// the board.
#[derive(Clone, Debug)]
pub struct Room {
    pub players: Vec<(String, Player)>,
    pub current_player: String,
    pub self_player: String,
    pub board: Board,
}

pub enum ClientMessage {
    // Username, Room
    Login(String, String),
    // Room, Capacity, Board width, Board height
    RoomCreate(String, u8, u8, u8),
    // Some means a stone was requested to be placed
    // None means that the player passed
    Place(Option<Position<u8>>),
    Chat(String),
}

#[derive(Debug)]
pub enum ServerMessage {
    LoginResponse(Result<Room, LoginError>),
    RoomCreateResponse(Result<Option<Room>, RoomCreateError>),
    PlaceResponse(Result<Move<u8>, InvalidMove>),
    PlayerAdd(Player),
    PlayerRemove(String),
    NextTurn(String),
    Chat(String),
    AlreadyLoggedIn,
}

#[derive(Debug)]
pub enum ChatError {
    MessageTooLong,
}

#[derive(Clone, Debug)]
pub enum LoginError {
    RoomDoesNotExist(String),
    RoomFull,
    UsernameTaken,
    UsernameTooLong,
    RoomNameTooLong,
}

#[derive(Clone, Debug)]
pub enum RoomCreateError {
    RoomNameTooLong,
    RoomNameTaken,
}

} // verus!
