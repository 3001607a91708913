//! The command/action pipeline: the sole arbiter of protocol legality.
//! Given a client, its lobby (if any) and a parsed command, it validates
//! the command against the current state and yields the action to run,
//! mutating only the client's own lobby/progress fields.
use vstd::prelude::*;

use crate::PlayerState;
use crate::types::{Action, Client, Command, Lobby, LobbyCode, LobbyState, TransitionError};

verus! {

/// The transition relation of the pipeline, as a function: the client
/// record after the command, and the action (or rejection) it produces.
pub open spec fn transition_spec(
    client: Client,
    lobby: Option<Lobby>,
    command: Command,
) -> (Client, Result<Action, TransitionError>) {
    if command is Disconnect {
        (client, Ok(Action::Disconnect { client_id: client.id }))
    } else {
        match lobby {
            None => match command {
                Command::Create => (client, Ok(Action::CreateLobby { leader_id: client.id })),
                Command::Join(code) => (
                    Client { id: client.id, lobby: Some(code), state: PlayerState::initial() },
                    Ok(Action::JoinLobby { lobby_code: code, client_id: client.id }),
                ),
                Command::JoinRandom => (
                    Client { id: client.id, lobby: client.lobby, state: PlayerState::initial() },
                    Ok(Action::JoinLobby { lobby_code: LobbyCode::placeholder(), client_id: client.id }),
                ),
                _ => (client, Err(TransitionError::CommandWithoutLobby)),
            },
            Some(l) => match command {
                Command::Create => (client, Ok(Action::Noop)),
                Command::Start => {
                    if l.state is WaitingForStart || l.state is RaceRunning {
                        if client.id == l.leader_id {
                            (client, Ok(Action::StartLobby))
                        } else {
                            (client, Ok(Action::Noop))
                        }
                    } else {
                        (client, Err(TransitionError::StartWrongState))
                    }
                },
                Command::State(s) => match l.state {
                    LobbyState::RaceRunning => (
                        Client { id: client.id, lobby: client.lobby, state: s },
                        Ok(Action::UpdatedState {
                            lobby_code: l.code,
                            client_id: client.id,
                            new_state: s,
                        }),
                    ),
                    LobbyState::WaitingForStart | LobbyState::Countdown(_)
                        | LobbyState::RaceFinished => (
                        Client { id: client.id, lobby: client.lobby, state: PlayerState::initial() },
                        Ok(Action::UpdatedState {
                            lobby_code: l.code,
                            client_id: client.id,
                            new_state: PlayerState::initial(),
                        }),
                    ),
                    _ => (client, Ok(Action::Noop)),
                },
                Command::Join(_) => (client, Err(TransitionError::JoinInLobby)),
                Command::JoinRandom => (client, Err(TransitionError::JoinRandomInLobby)),
                Command::Restart => (client, Ok(Action::RestartLobby)),
                Command::Words => (
                    client,
                    Ok(Action::SendWords { lobby_code: l.code, client_id: client.id }),
                ),
                Command::Disconnect => (client, Ok(Action::Noop)),
            },
        }
    }
}

/// Validate one command against the client's current situation and
/// produce the action to dispatch.  Joining records the chosen lobby and
/// resets progress immediately; a progress report outside a running race
/// (waiting, counting down, or after the race finished) is replaced with
/// the initial state before being recorded.
pub fn transition_client(
    client: &mut Client,
    lobby: Option<&Lobby>,
    command: Command,
) -> (r: Result<Action, TransitionError>)
    ensures
        (*final(client), r) == transition_spec(
            *old(client),
            match lobby {
                Some(l) => Some(*l),
                None => None,
            },
            command,
        ),
{
    if let Command::Disconnect = command {
        return Ok(Action::Disconnect { client_id: client.id });
    }
    match lobby {
        None => {
            match command {
                Command::Create => Ok(Action::CreateLobby { leader_id: client.id }),
                Command::Join(code) => {
                    client.lobby = Some(code);
                    client.state = PlayerState::start();
                    Ok(Action::JoinLobby { lobby_code: code, client_id: client.id })
                },
                Command::JoinRandom => {
                    client.state = PlayerState::start();
                    Ok(Action::JoinLobby {
                        lobby_code: LobbyCode::placeholder(),
                        client_id: client.id,
                    })
                },
                _ => Err(TransitionError::CommandWithoutLobby),
            }
        },
        Some(l) => {
            match command {
                Command::Create => Ok(Action::Noop),
                Command::Start => {
                    match l.state {
                        LobbyState::WaitingForStart | LobbyState::RaceRunning => {
                            if client.id == l.leader_id {
                                Ok(Action::StartLobby)
                            } else {
                                Ok(Action::Noop)
                            }
                        },
                        _ => Err(TransitionError::StartWrongState),
                    }
                },
                Command::State(s) => {
                    match l.state {
                        LobbyState::RaceRunning => {
                            client.state = s;
                            Ok(Action::UpdatedState {
                                lobby_code: l.code,
                                client_id: client.id,
                                new_state: s,
                            })
                        },
                        LobbyState::WaitingForStart | LobbyState::Countdown(_)
                            | LobbyState::RaceFinished => {
                            client.state = PlayerState::start();
                            Ok(Action::UpdatedState {
                                lobby_code: l.code,
                                client_id: client.id,
                                new_state: PlayerState::start(),
                            })
                        },
                        _ => Ok(Action::Noop),
                    }
                },
                Command::Join(_) => Err(TransitionError::JoinInLobby),
                Command::JoinRandom => Err(TransitionError::JoinRandomInLobby),
                Command::Restart => Ok(Action::RestartLobby),
                Command::Words => Ok(Action::SendWords {
                    lobby_code: l.code,
                    client_id: client.id,
                }),
                Command::Disconnect => Ok(Action::Noop),
            }
        },
    }
}

} // verus!
