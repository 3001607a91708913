//! A line-oriented multiplayer typing-race server core: protocol codec,
//! command validation pipeline, lobby state machine, matchmaking and
//! effect dispatch, all as pure logic over plain values.  The surrounding
//! binary owns the sockets and the clock and feeds bytes and timestamps in.
use vstd::prelude::*;

pub mod codec;
pub mod matchmaking;
pub mod pipeline;
pub mod server;
pub mod types;

verus! {

/// Length of a lobby code, in bytes.
pub const LOBBY_CODE_LENGTH: usize = 5;

/// Number of words in every race.
pub const WORD_COUNT: usize = 20;

/// Countdown between the leader's start request and the race, in seconds.
pub const COUNTDOWN_SECS: u64 = 5;

/// The same countdown in milliseconds of the caller's clock.
pub const COUNTDOWN_MILLIS: u64 = 5000;

/// Race progress reported by a client and rebroadcast to its lobby.
#[derive(Debug, Clone, Copy, PartialEq, Eq, Structural)]
pub struct PlayerState {
    pub current_word: u64,
    pub current_completed_character: u64,
    pub did_make_mistake: bool,
}

impl PlayerState {
    /// The progress every racer starts from.
    pub fn start() -> (r: PlayerState)
        ensures
            r == PlayerState::initial(),
    {
        PlayerState { current_word: 0, current_completed_character: 0, did_make_mistake: false }
    }

    /// Zero progress, no mistake.
    pub open spec fn initial() -> PlayerState {
        PlayerState { current_word: 0, current_completed_character: 0, did_make_mistake: false }
    }
}

impl Default for PlayerState {
    fn default() -> (r: PlayerState)
        ensures
            r == PlayerState::initial(),
    {
        PlayerState::start()
    }
}

} // verus!
