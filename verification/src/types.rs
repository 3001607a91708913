//! The data model: lobby codes, lobby and client records, the untrusted
//! `Command`s parsed off the wire, and the validated `Action`s that the
//! dispatcher trusts.
use vstd::prelude::*;

verus! {

/// A lobby code: five bytes, uppercase ASCII letters when well formed.
/// Held as five plain fields so that equality is structural and a code can
/// be written down in contracts as easily as in tests.
#[derive(Debug, Clone, Copy, PartialEq, Eq, Structural)]
pub struct LobbyCode(pub u8, pub u8, pub u8, pub u8, pub u8);

impl View for LobbyCode {
    type V = Seq<u8>;

    open spec fn view(&self) -> Seq<u8> {
        seq![self.0, self.1, self.2, self.3, self.4]
    }
}

impl LobbyCode {
    /// The sentinel code a `JoinRandom` request carries until matchmaking
    /// resolves it; never a valid code (valid codes hold only letters).
    pub open spec fn placeholder_spec() -> LobbyCode {
        LobbyCode(0, 0, 0, 0, 0)
    }

    /// Executable form of the sentinel.
    #[verifier::when_used_as_spec(placeholder_spec)]
    pub fn placeholder() -> (r: LobbyCode)
        ensures
            r == LobbyCode::placeholder_spec(),
    {
        LobbyCode(0, 0, 0, 0, 0)
    }
}

/// A code is well formed when every byte is an uppercase ASCII letter.
pub open spec fn valid_code(c: Seq<u8>) -> bool {
    c.len() == crate::LOBBY_CODE_LENGTH && forall|i: int|
        0 <= i < c.len() ==> 65 <= #[trigger] c[i] <= 90
}

/// Where the lobby is in its lifecycle.  The countdown variant carries the
/// deadline, in milliseconds of the caller's clock.
#[derive(Debug, Clone, Copy, PartialEq, Eq, Structural)]
pub enum LobbyState {
    WaitingForStart,
    Countdown(u64),
    RaceRunning,
    RaceFinished,
    Dead,
}

/// One race session: a leader, a membership set, one immutable word list,
/// and a state value that advances on commands and on the timer sweep.
pub struct Lobby {
    pub code: LobbyCode,
    pub leader_id: u64,
    pub state: LobbyState,
    pub winner: Option<u64>,
    pub members: Vec<u64>,
    pub words: Vec<Vec<u8>>,
}

impl Lobby {
    /// Internal consistency of one lobby record: a well-formed code, the
    /// fixed word count, and no duplicate members.
    pub open spec fn wf(self) -> bool {
        &&& valid_code(self.code@)
        &&& self.words@.len() == crate::WORD_COUNT
        &&& forall|i: int, j: int|
            0 <= i < j < self.members@.len() ==> self.members@[i] != self.members@[j]
    }
}

/// One connected client, as the core sees it: its identity, the lobby it
/// believes it is in, and its last reported race progress.  The socket and
/// the raw read buffer live outside the core.
#[derive(Debug, Clone, Copy, PartialEq, Eq, Structural)]
pub struct Client {
    pub id: u64,
    pub lobby: Option<LobbyCode>,
    pub state: crate::PlayerState,
}

/// A parsed, untrusted client request.
#[derive(Debug, Clone, Copy, PartialEq, Eq, Structural)]
pub enum Command {
    Start,
    Create,
    State(crate::PlayerState),
    Join(LobbyCode),
    JoinRandom,
    Restart,
    Disconnect,
    Words,
}

/// A validated effect description; the only input the dispatcher trusts.
#[derive(Debug, Clone, Copy, PartialEq, Eq, Structural)]
pub enum Action {
    CreateLobby { leader_id: u64 },
    StartLobby,
    SendWords { lobby_code: LobbyCode, client_id: u64 },
    Noop,
    UpdatedState { lobby_code: LobbyCode, client_id: u64, new_state: crate::PlayerState },
    JoinLobby { lobby_code: LobbyCode, client_id: u64 },
    RestartLobby,
    Disconnect { client_id: u64 },
}

/// Why a line failed to parse.  The line is discarded; the connection lives.
#[derive(Debug, Clone, Copy, PartialEq, Eq, Structural)]
pub enum ParseError {
    /// Ran out of tokens while reading the three `STATE` fields.
    UnexpectedEnd,
    /// A `STATE` token was empty of digits, held a non-digit, or overflowed.
    BadNumber,
    /// The code after `JOIN ` was not exactly five bytes.
    BadCodeLength,
    /// The line matched no command at all.
    UnknownCommand,
}

/// Why a parsed command was illegal in the client's current situation.
/// Any of these forcibly disconnects the offending client.
#[derive(Debug, Clone, Copy, PartialEq, Eq, Structural)]
pub enum TransitionError {
    /// A command that needs a lobby arrived while the client had none.
    CommandWithoutLobby,
    /// `START` arrived while the lobby was neither waiting nor running.
    StartWrongState,
    /// `JOIN <code>` while already in a lobby.
    JoinInLobby,
    /// `JOIN RANDOM` while already in a lobby.
    JoinRandomInLobby,
}

/// Why the dispatcher aborted an action without mutating anything.
#[derive(Debug, Clone, Copy, PartialEq, Eq, Structural)]
pub enum DispatchError {
    /// The registries no longer hold the client or lobby the action names.
    MissingRegistryEntry,
    /// Code generation kept colliding with live lobbies.
    CodeGenExhausted,
    /// A restart was requested; its semantics are deliberately undefined.
    RestartUnimplemented,
}

/// One outbound protocol line, addressed to one client.
pub struct Out {
    pub client_id: u64,
    pub line: Vec<u8>,
}

} // verus!
