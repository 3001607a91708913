//! The server core: both registries, the pending-command queue, and the
//! dispatcher that turns validated actions into registry mutations and
//! outbound lines.  One value owns everything; the binary threads it
//! through every tick.
use vstd::prelude::*;

use std::collections::VecDeque;

use crate::codec::{
    connected_line, countdown_line, created_line, finished_line, join_failed_line, joined_line,
    parse_command, render_connected, render_countdown, render_created, render_finished,
    render_join_failed, render_joined, render_starting, render_state, render_words,
    spec_parse_command, starting_line, state_line, words_line,
};
use crate::matchmaking::{
    choose_words, copy_bytes, drawn_without_replacement, generate_lobby_code, pick_random_lobby,
    word_from_dict,
};
use crate::pipeline::{transition_client, transition_spec};
use crate::types::{
    valid_code, Action, Client, Command, DispatchError, Lobby, LobbyCode, LobbyState, Out,
    ParseError,
};
use crate::PlayerState;

verus! {

/// Commands drained from the queue in one tick, at most; the queue both
/// receives network input and feeds itself, so a hard cap bounds the
/// worst-case chain.
pub const MAX_COMMANDS_PER_TICK: usize = 4096;

/// The whole server state: client registry, lobby registry, the FIFO of
/// pending commands, and the immutable dictionary.
pub struct Server {
    pub next_client_id: u64,
    pub clients: Vec<Client>,
    pub lobbies: Vec<Lobby>,
    pub queue: VecDeque<(u64, Command)>,
    pub dict: Vec<Vec<u8>>,
}

// ------------------------------------------------------------ invariants

/// No two clients share an identifier.
pub open spec fn ids_unique(cs: Seq<Client>) -> bool {
    forall|i: int, j: int| 0 <= i < j < cs.len() ==> cs[i].id != cs[j].id
}

/// Identifiers are assigned from a monotone counter and never reused.
pub open spec fn ids_bounded(cs: Seq<Client>, next: u64) -> bool {
    forall|i: int| 0 <= i < cs.len() ==> 1 <= (#[trigger] cs[i]).id <= next
}

/// No two live lobbies share a code.
pub open spec fn codes_unique(ls: Seq<Lobby>) -> bool {
    forall|i: int, j: int| 0 <= i < j < ls.len() ==> ls[i].code != ls[j].code
}

/// Every lobby record is internally consistent.
pub open spec fn lobbies_wf(ls: Seq<Lobby>) -> bool {
    forall|i: int| 0 <= i < ls.len() ==> (#[trigger] ls[i]).wf()
}

/// The client at index `i` is a member of the lobby it believes it is in.
pub open spec fn client_linked(s: Server, i: int) -> bool {
    match s.clients@[i].lobby {
        Some(code) => exists|j: int|
            0 <= j < s.lobbies@.len() && (#[trigger] s.lobbies@[j]).code == code
                && s.lobbies@[j].members@.contains(s.clients@[i].id),
        None => true,
    }
}

pub open spec fn clients_linked(s: Server) -> bool {
    forall|i: int| 0 <= i < s.clients@.len() ==> #[trigger] client_linked(s, i)
}

/// Member `k` of lobby `j` is a live client that points back at the lobby.
pub open spec fn member_backed(s: Server, j: int, k: int) -> bool {
    exists|i: int|
        0 <= i < s.clients@.len() && (#[trigger] s.clients@[i]).id == s.lobbies@[j].members@[k]
            && s.clients@[i].lobby == Some(s.lobbies@[j].code)
}

pub open spec fn members_backed(s: Server) -> bool {
    forall|j: int, k: int|
        0 <= j < s.lobbies@.len() && 0 <= k < s.lobbies@[j].members@.len()
            ==> #[trigger] member_backed(s, j, k)
}

impl Server {
    /// The server invariant: fresh identifiers, well-formed lobbies with
    /// distinct codes, a large enough dictionary, and two-way agreement
    /// between a client's lobby field and the lobby membership sets.
    pub open spec fn wf(self) -> bool {
        &&& self.dict@.len() >= crate::WORD_COUNT
        &&& ids_unique(self.clients@)
        &&& ids_bounded(self.clients@, self.next_client_id)
        &&& codes_unique(self.lobbies@)
        &&& lobbies_wf(self.lobbies@)
        &&& clients_linked(self)
        &&& members_backed(self)
    }
}

/// The linkage invariants read only the registries: they carry over to
/// any server value with the same clients and lobbies.
pub proof fn lemma_links_stable(pre: Server, post: Server)
    requires
        post.clients@ == pre.clients@,
        post.lobbies@ == pre.lobbies@,
        clients_linked(pre),
        members_backed(pre),
    ensures
        clients_linked(post),
        members_backed(post),
{
    assert forall|i: int| 0 <= i < post.clients@.len() implies #[trigger] client_linked(
        post,
        i,
    ) by {
        assert(client_linked(pre, i));
        match pre.clients@[i].lobby {
            Some(code) => {
                let j = choose|j: int|
                    0 <= j < pre.lobbies@.len() && (#[trigger] pre.lobbies@[j]).code == code
                        && pre.lobbies@[j].members@.contains(pre.clients@[i].id);
                assert(post.lobbies@[j].code == code);
                assert(post.lobbies@[j].members@.contains(post.clients@[i].id));
            },
            None => {},
        }
    }
    assert forall|j: int, k: int|
        0 <= j < post.lobbies@.len() && 0 <= k
            < post.lobbies@[j].members@.len() implies #[trigger] member_backed(post, j, k) by {
        assert(member_backed(pre, j, k));
        let i = choose|i: int|
            0 <= i < pre.clients@.len() && (#[trigger] pre.clients@[i]).id
                == pre.lobbies@[j].members@[k] && pre.clients@[i].lobby == Some(
                pre.lobbies@[j].code,
            );
        assert(post.clients@[i].id == post.lobbies@[j].members@[k]);
    }
}

// ---------------------------------------------------------------- frames

/// Lobbies are never removed, and an existing lobby keeps its code, its
/// word list and its leader forever.
pub open spec fn lobbies_preserved(pre: Seq<Lobby>, post: Seq<Lobby>) -> bool {
    &&& post.len() >= pre.len()
    &&& forall|j: int|
        0 <= j < pre.len() ==> (#[trigger] post[j]).code == pre[j].code && post[j].words
            == pre[j].words && post[j].leader_id == pre[j].leader_id
}

/// A winner, once recorded, is never overwritten.
pub open spec fn winners_monotone(pre: Seq<Lobby>, post: Seq<Lobby>) -> bool {
    &&& post.len() >= pre.len()
    &&& forall|j: int|
        0 <= j < pre.len() && pre[j].winner is Some ==> (#[trigger] post[j]).winner
            == pre[j].winner
}

/// A lobby sitting in its countdown is left alone: only the timer sweep
/// may move it on.
pub open spec fn countdowns_held(pre: Seq<Lobby>, post: Seq<Lobby>) -> bool {
    forall|j: int|
        0 <= j < pre.len() && pre[j].state is Countdown ==> (#[trigger] post[j]).state
            == pre[j].state
}

/// One line addressed to each listed client, in listing order.
pub open spec fn is_broadcast(outs: Seq<Out>, members: Seq<u64>, line: Seq<u8>) -> bool {
    &&& outs.len() == members.len()
    &&& forall|k: int|
        0 <= k < outs.len() ==> (#[trigger] outs[k]).client_id == members[k] && outs[k].line@
            == line
}

/// Some client carries this identifier.
pub open spec fn has_client(cs: Seq<Client>, id: u64) -> bool {
    exists|i: int| 0 <= i < cs.len() && (#[trigger] cs[i]).id == id
}

/// The index of the client carrying this identifier; meaningful when one
/// exists, and unique because identifiers are.
pub open spec fn client_index(cs: Seq<Client>, id: u64) -> int {
    choose|i: int| 0 <= i < cs.len() && (#[trigger] cs[i]).id == id
}

/// Some live lobby carries this code.
pub open spec fn has_lobby(ls: Seq<Lobby>, code: LobbyCode) -> bool {
    exists|j: int| 0 <= j < ls.len() && (#[trigger] ls[j]).code == code
}

/// The index of the lobby carrying this code; meaningful when one
/// exists, and unique because codes are.
pub open spec fn lobby_index(ls: Seq<Lobby>, code: LobbyCode) -> int {
    choose|j: int| 0 <= j < ls.len() && (#[trigger] ls[j]).code == code
}

/// What recording one member's progress does to the lobby registry: the
/// first report reaching the end of the word list crowns that member and
/// moves the lobby to the finished state, announced to every member;
/// any other report leaves the registry alone and is rebroadcast.
pub open spec fn progress_rel(
    pre: Seq<Lobby>,
    post: Seq<Lobby>,
    outs: Seq<Out>,
    code: LobbyCode,
    cid: u64,
    ps: PlayerState,
) -> bool {
    &&& has_lobby(pre, code)
    &&& ({
        let j = lobby_index(pre, code);
        if pre[j].winner is None && ps.current_word >= pre[j].words@.len() {
            post == pre.update(
                j,
                (Lobby {
                    code: pre[j].code,
                    leader_id: pre[j].leader_id,
                    state: LobbyState::RaceFinished,
                    winner: Some(cid),
                    members: pre[j].members,
                    words: pre[j].words,
                }),
            ) && is_broadcast(outs, pre[j].members@, finished_line(cid))
        } else {
            post == pre && is_broadcast(outs, pre[j].members@, state_line(cid, ps))
        }
    })
}

// --------------------------------------------------------------- lookups

/// Index of the client with this identifier.
pub fn find_client(cs: &Vec<Client>, id: u64) -> (r: Option<usize>)
    ensures
        match r {
            Some(i) => i < cs@.len() && cs@[i as int].id == id,
            None => forall|i: int| 0 <= i < cs@.len() ==> (#[trigger] cs@[i]).id != id,
        },
{
    let mut i: usize = 0;
    while i < cs.len()
        invariant
            0 <= i <= cs@.len(),
            forall|t: int| 0 <= t < i ==> (#[trigger] cs@[t]).id != id,
        decreases cs@.len() - i,
    {
        if cs[i].id == id {
            return Some(i);
        }
        i = i + 1;
    }
    None
}

/// Index of the lobby with this code.
pub fn find_lobby_idx(ls: &Vec<Lobby>, code: LobbyCode) -> (r: Option<usize>)
    ensures
        match r {
            Some(j) => j < ls@.len() && ls@[j as int].code == code,
            None => forall|j: int| 0 <= j < ls@.len() ==> (#[trigger] ls@[j]).code != code,
        },
{
    let mut j: usize = 0;
    while j < ls.len()
        invariant
            0 <= j <= ls@.len(),
            forall|t: int| 0 <= t < j ==> (#[trigger] ls@[t]).code != code,
        decreases ls@.len() - j,
    {
        if ls[j].code == code {
            return Some(j);
        }
        j = j + 1;
    }
    None
}

/// Index of a value in a member list.
fn find_member(ms: &Vec<u64>, x: u64) -> (r: Option<usize>)
    ensures
        match r {
            Some(k) => k < ms@.len() && ms@[k as int] == x,
            None => forall|k: int| 0 <= k < ms@.len() ==> ms@[k] != x,
        },
{
    let mut k: usize = 0;
    while k < ms.len()
        invariant
            0 <= k <= ms@.len(),
            forall|t: int| 0 <= t < k ==> ms@[t] != x,
        decreases ms@.len() - k,
    {
        if ms[k] == x {
            return Some(k);
        }
        k = k + 1;
    }
    None
}

/// Address a copy of `line` to every member, in membership order.
fn broadcast(members: &Vec<u64>, line: &Vec<u8>) -> (r: Vec<Out>)
    ensures
        is_broadcast(r@, members@, line@),
{
    let mut r: Vec<Out> = Vec::new();
    let mut k: usize = 0;
    while k < members.len()
        invariant
            0 <= k <= members@.len(),
            r@.len() == k,
            forall|t: int|
                0 <= t < k ==> (#[trigger] r@[t]).client_id == members@[t] && r@[t].line@ == line@,
        decreases members@.len() - k,
    {
        r.push(Out { client_id: members[k], line: copy_bytes(line) });
        k = k + 1;
    }
    r
}

impl Server {
    /// A fresh server around a dictionary of at least the race's word
    /// count.
    pub fn new(dict: Vec<Vec<u8>>) -> (r: Server)
        requires
            dict@.len() >= crate::WORD_COUNT,
        ensures
            r.wf(),
            r.next_client_id == 0,
            r.clients@.len() == 0,
            r.lobbies@.len() == 0,
            r.queue@.len() == 0,
            r.dict == dict,
    {
        Server {
            next_client_id: 0,
            clients: Vec::new(),
            lobbies: Vec::new(),
            queue: VecDeque::new(),
            dict,
        }
    }

    /// Admit a freshly accepted connection: a new identifier, a default
    /// progress record, no lobby, and the greeting line to send it.
    pub fn connect(&mut self) -> (r: (u64, Vec<u8>))
        requires
            old(self).wf(),
            old(self).next_client_id < u64::MAX,
        ensures
            final(self).wf(),
            r.0 == old(self).next_client_id + 1,
            r.1@ == connected_line(r.0),
            final(self).next_client_id == old(self).next_client_id + 1,
            final(self).clients@ == old(self).clients@.push(
                Client { id: r.0, lobby: None, state: PlayerState::initial() },
            ),
            final(self).lobbies == old(self).lobbies,
            final(self).queue == old(self).queue,
            final(self).dict == old(self).dict,
    {
        self.next_client_id = self.next_client_id + 1;
        let id = self.next_client_id;
        self.clients.push(Client { id, lobby: None, state: PlayerState::start() });
        let line = render_connected(id);
        proof {
            assert forall|i: int| 0 <= i < self.clients@.len() implies #[trigger] client_linked(
                *self,
                i,
            ) by {
                if i < old(self).clients@.len() {
                    assert(client_linked(*old(self), i));
                    assert(self.clients@[i] == old(self).clients@[i]);
                }
            }
            assert forall|j: int, k: int|
                0 <= j < self.lobbies@.len() && 0 <= k
                    < self.lobbies@[j].members@.len() implies #[trigger] member_backed(
                *self,
                j,
                k,
            ) by {
                assert(member_backed(*old(self), j, k));
                let i = choose|i: int|
                    0 <= i < old(self).clients@.len() && (#[trigger] old(self).clients@[i]).id
                        == old(self).lobbies@[j].members@[k] && old(self).clients@[i].lobby == Some(
                        old(self).lobbies@[j].code,
                    );
                assert(self.clients@[i] == old(self).clients@[i]);
            }
        }
        (id, line)
    }

    /// Record a failed write (or an explicit disconnect wish) as a
    /// pending disconnect command, handled on a later pass of the queue.
    pub fn note_write_failure(&mut self, client_id: u64)
        requires
            old(self).wf(),
        ensures
            final(self).wf(),
            final(self).queue@ == old(self).queue@.push((client_id, Command::Disconnect)),
            final(self).clients == old(self).clients,
            final(self).lobbies == old(self).lobbies,
            final(self).next_client_id == old(self).next_client_id,
            final(self).dict == old(self).dict,
    {
        self.queue.push_back((client_id, Command::Disconnect));
        proof {
            lemma_links_stable(*old(self), *self);
        }
    }

    /// Decode one complete input line from a client and queue the
    /// command.  A malformed line is reported and discarded; nothing else
    /// changes and the connection stays up.
    pub fn ingest_line(&mut self, client_id: u64, line: &[u8]) -> (r: Result<(), ParseError>)
        requires
            old(self).wf(),
        ensures
            final(self).wf(),
            match spec_parse_command(line@) {
                Ok(c) => r == Ok::<(), ParseError>(()) && final(self).queue@ == old(
                    self,
                ).queue@.push((client_id, c)),
                Err(e) => r == Err::<(), ParseError>(e) && final(self).queue == old(self).queue,
            },
            final(self).clients == old(self).clients,
            final(self).lobbies == old(self).lobbies,
            final(self).next_client_id == old(self).next_client_id,
            final(self).dict == old(self).dict,
    {
        let r = match parse_command(line) {
            Ok(c) => {
                self.queue.push_back((client_id, c));
                Ok(())
            },
            Err(e) => Err(e),
        };
        proof {
            lemma_links_stable(*old(self), *self);
        }
        r
    }

    /// Send the lobby's word list to one member.
    pub fn send_words(&self, lobby_code: LobbyCode, client_id: u64) -> (r: Result<
        Vec<Out>,
        DispatchError,
    >)
        requires
            self.wf(),
        ensures
            match r {
                Ok(outs) => words_rel(*self, outs@, lobby_code, client_id),
                Err(e) => e == DispatchError::MissingRegistryEntry && !has_lobby(
                    self.lobbies@,
                    lobby_code,
                ),
            },
    {
        match find_lobby_idx(&self.lobbies, lobby_code) {
            None => Err(DispatchError::MissingRegistryEntry),
            Some(j) => {
                proof {
                    assert(self.lobbies@[j as int].code == lobby_code);
                    assert(has_lobby(self.lobbies@, lobby_code));
                    assert(lobby_index(self.lobbies@, lobby_code) == j as int) by {
                        let jj = lobby_index(self.lobbies@, lobby_code);
                        if jj != j as int {
                            assert(self.lobbies@[jj].code != self.lobbies@[j as int].code);
                        }
                    }
                }
                let line = render_words(&self.lobbies[j].words);
                let mut outs: Vec<Out> = Vec::new();
                outs.push(Out { client_id, line });
                Ok(outs)
            },
        }
    }

    /// Begin the countdown: record the deadline and tell every member.
    pub fn start_lobby(&mut self, lobby_code: LobbyCode, now: u64) -> (r: Result<
        Vec<Out>,
        DispatchError,
    >)
        requires
            old(self).wf(),
            now <= u64::MAX - crate::COUNTDOWN_MILLIS,
        ensures
            final(self).wf(),
            lobbies_preserved(old(self).lobbies@, final(self).lobbies@),
            winners_monotone(old(self).lobbies@, final(self).lobbies@),
            final(self).clients == old(self).clients,
            final(self).queue == old(self).queue,
            final(self).next_client_id == old(self).next_client_id,
            final(self).dict == old(self).dict,
            match r {
                Ok(outs) => start_rel(*old(self), *final(self), outs@, lobby_code, now),
                Err(e) => e == DispatchError::MissingRegistryEntry && final(self).lobbies == old(
                    self,
                ).lobbies && !has_lobby(old(self).lobbies@, lobby_code),
            },
    {
        match find_lobby_idx(&self.lobbies, lobby_code) {
            None => Err(DispatchError::MissingRegistryEntry),
            Some(j) => {
                proof {
                    assert(old(self).lobbies@[j as int].code == lobby_code);
                    assert(has_lobby(old(self).lobbies@, lobby_code));
                    assert(lobby_index(old(self).lobbies@, lobby_code) == j as int) by {
                        let jj = lobby_index(old(self).lobbies@, lobby_code);
                        if jj != j as int {
                            assert(old(self).lobbies@[jj].code != old(self).lobbies@[
                                j as int
                            ].code);
                        }
                    }
                }
                let line = render_countdown(crate::COUNTDOWN_SECS);
                let deadline = now + crate::COUNTDOWN_MILLIS;
                let l = vstd::std_specs::vec::vec_index_mut(&mut self.lobbies, j);
                l.state = LobbyState::Countdown(deadline);
                let outs = broadcast(&self.lobbies[j].members, &line);
                proof {
                    assert(self.lobbies@[j as int].members == old(self).lobbies@[j as int].members);
                    assert forall|i: int| 0 <= i < self.clients@.len() implies
                        #[trigger] client_linked(*self, i) by {
                        assert(client_linked(*old(self), i));
                        match old(self).clients@[i].lobby {
                            Some(code) => {
                                let jj = choose|jj: int|
                                    0 <= jj < old(self).lobbies@.len() && (#[trigger] old(
                                        self,
                                    ).lobbies@[jj]).code == code && old(
                                        self,
                                    ).lobbies@[jj].members@.contains(old(self).clients@[i].id);
                                assert(self.lobbies@[jj].code == old(self).lobbies@[jj].code);
                                assert(self.lobbies@[jj].members == old(self).lobbies@[jj].members);
                            },
                            None => {},
                        }
                    }
                    assert forall|jj: int, k: int|
                        0 <= jj < self.lobbies@.len() && 0 <= k
                            < self.lobbies@[jj].members@.len() implies #[trigger] member_backed(
                        *self,
                        jj,
                        k,
                    ) by {
                        assert(self.lobbies@[jj].members == old(self).lobbies@[jj].members);
                        assert(self.lobbies@[jj].code == old(self).lobbies@[jj].code);
                        assert(member_backed(*old(self), jj, k));
                    }
                }
                Ok(outs)
            },
        }
    }
}


/// Nothing observable changed.
pub open spec fn unchanged(pre: Server, post: Server) -> bool {
    &&& post.clients == pre.clients
    &&& post.lobbies == pre.lobbies
    &&& post.queue == pre.queue
    &&& post.next_client_id == pre.next_client_id
    &&& post.dict == pre.dict
}

/// What sending a lobby's word list produces: one line, to the
/// requester, carrying that lobby's immutable list.
pub open spec fn words_rel(s: Server, outs: Seq<Out>, code: LobbyCode, cid: u64) -> bool {
    &&& has_lobby(s.lobbies@, code)
    &&& outs.len() == 1 && outs[0].client_id == cid && outs[0].line@ == words_line(
        s.lobbies@[lobby_index(s.lobbies@, code)].words.deep_view(),
    )
}

/// What starting a lobby does: the deadline is recorded and every
/// member hears the countdown; nothing else moves.
pub open spec fn start_rel(pre: Server, post: Server, outs: Seq<Out>, code: LobbyCode, now: u64) -> bool {
    &&& has_lobby(pre.lobbies@, code)
    &&& ({
        let j = lobby_index(pre.lobbies@, code);
        post.lobbies@ == pre.lobbies@.update(
            j,
            (Lobby {
                code: pre.lobbies@[j].code,
                leader_id: pre.lobbies@[j].leader_id,
                state: LobbyState::Countdown((now + crate::COUNTDOWN_MILLIS) as u64),
                winner: pre.lobbies@[j].winner,
                members: pre.lobbies@[j].members,
                words: pre.lobbies@[j].words,
            }),
        ) && is_broadcast(outs, pre.lobbies@[j].members@, countdown_line(crate::COUNTDOWN_SECS))
    })
    &&& post.clients == pre.clients
    &&& post.queue == pre.queue
    &&& post.next_client_id == pre.next_client_id
    &&& post.dict == pre.dict
}

/// What a successful lobby creation does, in full: a fresh free code, a
/// freshly drawn word list, a one-member lobby, the acknowledgment
/// line, and the two queued follow-up commands.
pub open spec fn create_rel(pre: Server, post: Server, outs: Seq<Out>, leader_id: u64) -> bool {
    &&& has_client(pre.clients@, leader_id)
    &&& ({
        let i = client_index(pre.clients@, leader_id);
        let nl = post.lobbies@.last();
        &&& post.lobbies@ == pre.lobbies@.push(nl)
        &&& valid_code(nl.code@)
        &&& !has_lobby(pre.lobbies@, nl.code)
        &&& nl.leader_id == leader_id
        &&& nl.state == LobbyState::WaitingForStart
        &&& nl.winner is None
        &&& nl.members@ == seq![leader_id]
        &&& nl.words@.len() == crate::WORD_COUNT
        &&& (forall|w: int|
            0 <= w < nl.words@.len() ==> word_from_dict((#[trigger] nl.words@[w])@, pre.dict@))
        &&& drawn_without_replacement(nl.words@, pre.dict@)
        &&& post.clients@ == pre.clients@.update(
            i,
            (Client { id: leader_id, lobby: Some(nl.code), state: pre.clients@[i].state }),
        )
        &&& outs.len() == 1 && outs[0].client_id == leader_id && outs[0].line@ == created_line(
            nl.code,
        )
        &&& post.queue@ == pre.queue@.push((leader_id, Command::Words)).push(
            (leader_id, Command::State(pre.clients@[i].state)),
        )
        &&& post.next_client_id == pre.next_client_id
        &&& post.dict == pre.dict
    })
}

/// A join that found nothing: the requester alone hears of the failure
/// and nothing changes.
pub open spec fn join_fail_rel(
    pre: Server,
    post: Server,
    outs: Seq<Out>,
    requested: LobbyCode,
    client_id: u64,
) -> bool {
    &&& outs.len() == 1 && outs[0].client_id == client_id && outs[0].line@ == join_failed_line()
    &&& unchanged(pre, post)
    &&& (requested == LobbyCode::placeholder() ==> pre.lobbies@.len() == 0)
    &&& (requested != LobbyCode::placeholder() ==> !has_lobby(pre.lobbies@, requested))
}

/// A join that landed: the joiner becomes a member with reset progress,
/// is acknowledged, and a words request plus one progress echo per
/// member are queued.
pub open spec fn join_ok_rel(
    pre: Server,
    post: Server,
    outs: Seq<Out>,
    requested: LobbyCode,
    client_id: u64,
) -> bool {
    &&& has_client(pre.clients@, client_id)
    &&& exists|j: int|
        0 <= j < pre.lobbies@.len() && ({
            let i = client_index(pre.clients@, client_id);
            let code = (#[trigger] pre.lobbies@[j]).code;
            &&& (requested != LobbyCode::placeholder() ==> code == requested)
            &&& post.lobbies@.len() == pre.lobbies@.len()
            &&& post.lobbies@[j].members@ == pre.lobbies@[j].members@.push(client_id)
            &&& (forall|t: int|
                0 <= t < pre.lobbies@.len() && t != j ==> post.lobbies@[t] == (
                #[trigger] pre.lobbies@[t]))
            &&& post.lobbies@[j].code == code && post.lobbies@[j].state == pre.lobbies@[j].state
                && post.lobbies@[j].winner == pre.lobbies@[j].winner && post.lobbies@[j].words
                == pre.lobbies@[j].words && post.lobbies@[j].leader_id == pre.lobbies@[
                j
            ].leader_id
            &&& post.clients@ == pre.clients@.update(
                i,
                (Client { id: client_id, lobby: Some(code), state: PlayerState::initial() }),
            )
            &&& outs.len() == 1 && outs[0].client_id == client_id && outs[0].line@ == joined_line(
                code,
            )
            &&& post.queue@ == pre.queue@.push((client_id, Command::Words)) + state_echoes(
                post.lobbies@[j].members@,
                post.clients@,
            )
            &&& post.next_client_id == pre.next_client_id
            &&& post.dict == pre.dict
        })
}

/// What forgetting a client does: its record leaves the registry, its
/// lobby membership (if any) shrinks by it, and no lobby's code, words,
/// leader, state or winner moves.
pub open spec fn disconnect_rel(pre: Server, post: Server, client_id: u64) -> bool {
    &&& lobbies_preserved(pre.lobbies@, post.lobbies@)
    &&& winners_monotone(pre.lobbies@, post.lobbies@)
    &&& countdowns_held(pre.lobbies@, post.lobbies@)
    &&& post.queue == pre.queue
    &&& post.next_client_id == pre.next_client_id
    &&& post.dict == pre.dict
    &&& (forall|i: int|
        0 <= i < post.clients@.len() ==> (#[trigger] post.clients@[i]).id != client_id)
    &&& (!has_client(pre.clients@, client_id) ==> unchanged(pre, post))
    &&& (has_client(pre.clients@, client_id) ==> post.clients@ == pre.clients@.remove(
        client_index(pre.clients@, client_id),
    ))
    &&& post.lobbies@.len() == pre.lobbies@.len()
    &&& (forall|j: int|
        0 <= j < post.lobbies@.len() ==> ((#[trigger] post.lobbies@[j]).state
            == pre.lobbies@[j].state && post.lobbies@[j].winner == pre.lobbies@[j].winner))
}

/// The lobby a client record points at, when it is registered.
pub open spec fn lobby_snapshot(s: Server, cl: Client) -> Option<Lobby> {
    match cl.lobby {
        Some(code) => if has_lobby(s.lobbies@, code) {
            Some(s.lobbies@[lobby_index(s.lobbies@, code)])
        } else {
            None
        },
        None => None,
    }
}

/// Everything one dispatched command does: the pipeline's verdict on
/// the addressed client, then the action's exact effect on registries,
/// queue and output lines.  `outs` is empty whenever `err` reports an
/// aborted dispatch.
pub open spec fn step_rel(
    pre: Server,
    post: Server,
    outs: Seq<Out>,
    err: Option<DispatchError>,
    client_id: u64,
    command: Command,
    now: u64,
) -> bool {
    if !has_client(pre.clients@, client_id) {
        unchanged(pre, post) && outs == Seq::<Out>::empty() && err is None
    } else {
        let i = client_index(pre.clients@, client_id);
        let cl0 = pre.clients@[i];
        let tr = transition_spec(cl0, lobby_snapshot(pre, cl0), command);
        match tr.1 {
            Err(_) => err is None && outs == Seq::<Out>::empty() && disconnect_rel(
                pre,
                post,
                client_id,
            ),
            Ok(a) => match a {
                Action::Noop => err is None && outs == Seq::<Out>::empty() && unchanged(pre, post),
                Action::Disconnect { client_id: cid } => err is None && outs == Seq::<
                    Out,
                >::empty() && disconnect_rel(pre, post, cid),
                Action::CreateLobby { leader_id } => match err {
                    None => create_rel(pre, post, outs, leader_id),
                    Some(e) => e == DispatchError::CodeGenExhausted && unchanged(pre, post) && outs
                        == Seq::<Out>::empty() && pre.lobbies@.len() > 0,
                },
                Action::JoinLobby { lobby_code, client_id: cid } => err is None && (join_fail_rel(
                    pre,
                    post,
                    outs,
                    lobby_code,
                    cid,
                ) || join_ok_rel(pre, post, outs, lobby_code, cid)),
                Action::StartLobby => err is None && match cl0.lobby {
                    Some(code) => start_rel(pre, post, outs, code, now),
                    None => unchanged(pre, post) && outs == Seq::<Out>::empty(),
                },
                Action::SendWords { lobby_code, client_id: cid } => err is None && unchanged(
                    pre,
                    post,
                ) && words_rel(pre, outs, lobby_code, cid),
                Action::UpdatedState { lobby_code, client_id: cid, new_state } => err is None
                    && post.clients@ == pre.clients@.update(i, tr.0) && post.queue == pre.queue
                    && post.next_client_id == pre.next_client_id && post.dict == pre.dict
                    && progress_rel(pre.lobbies@, post.lobbies@, outs, lobby_code, cid, new_state),
                Action::RestartLobby => err == Some(DispatchError::RestartUnimplemented)
                    && unchanged(pre, post) && outs == Seq::<Out>::empty(),
            },
        }
    }
}

/// Marks one link of a dispatch trace, so that a trace can be put
/// together link by link; always true, carrying no claim of its own.
pub open spec fn pump_link(
    mid: Server,
    popped: Server,
    o1: Seq<Out>,
    o2: Seq<Out>,
    err: Option<DispatchError>,
) -> bool {
    true
}

/// The predecessor of a count.
pub open spec fn nat_pred(n: nat) -> nat {
    if n == 0 {
        0
    } else {
        (n - 1) as nat
    }
}

/// `n` commands were dispatched: each popped off the queue front and
/// handled exactly as `step_rel` says, with the delivered lines of all
/// of them concatenated in dispatch order.
pub open spec fn pump_rel(pre: Server, post: Server, outs: Seq<Out>, now: u64, n: nat) -> bool
    decreases n,
{
    if n == 0 {
        unchanged(pre, post) && outs == Seq::<Out>::empty()
    } else {
        exists|mid: Server, popped: Server, o1: Seq<Out>, o2: Seq<Out>, err: Option<
            DispatchError,
        >|
            #![trigger pump_link(mid, popped, o1, o2, err)]
            {
                &&& pump_link(mid, popped, o1, o2, err)
                &&& pump_rel(pre, mid, o1, now, nat_pred(n))
                &&& mid.queue@.len() > 0
                &&& popped.clients == mid.clients
                &&& popped.lobbies == mid.lobbies
                &&& popped.queue@ == mid.queue@.drop_first()
                &&& popped.next_client_id == mid.next_client_id
                &&& popped.dict == mid.dict
                &&& step_rel(popped, post, o2, err, mid.queue@[0].0, mid.queue@[0].1, now)
                &&& outs == o1 + o2
            }
    }
}

/// A trace extends by one dispatched command.
pub proof fn lemma_pump_extend(
    pre: Server,
    mid: Server,
    popped: Server,
    post: Server,
    o1: Seq<Out>,
    o2: Seq<Out>,
    err: Option<DispatchError>,
    now: u64,
    n: nat,
)
    requires
        pump_rel(pre, mid, o1, now, n),
        mid.queue@.len() > 0,
        popped.clients == mid.clients,
        popped.lobbies == mid.lobbies,
        popped.queue@ == mid.queue@.drop_first(),
        popped.next_client_id == mid.next_client_id,
        popped.dict == mid.dict,
        step_rel(popped, post, o2, err, mid.queue@[0].0, mid.queue@[0].1, now),
    ensures
        pump_rel(pre, post, o1 + o2, now, n + 1),
{
    assert(nat_pred(n + 1) == n);
    assert(pump_rel(pre, mid, o1, now, nat_pred(n + 1)));
    assert(pump_link(mid, popped, o1, o2, err));
}

impl Server {
    /// Every client record carrying this identifier is lobby-less; what
    /// the pipeline guarantees before it emits a create or join action.
    pub open spec fn lobbyless(self, client_id: u64) -> bool {
        forall|i: int|
            0 <= i < self.clients@.len() && (#[trigger] self.clients@[i]).id == client_id
                ==> self.clients@[i].lobby is None
    }

    /// Open a lobby for a lobby-less client: a fresh unique code, a
    /// fresh word list, membership of exactly the leader, and the
    /// acknowledgment line; a words request and a progress echo are
    /// queued so the creator hears both right away.
    pub fn create_lobby(&mut self, leader_id: u64) -> (r: Result<Vec<Out>, DispatchError>)
        requires
            old(self).wf(),
            old(self).lobbyless(leader_id),
        ensures
            final(self).wf(),
            lobbies_preserved(old(self).lobbies@, final(self).lobbies@),
            winners_monotone(old(self).lobbies@, final(self).lobbies@),
            countdowns_held(old(self).lobbies@, final(self).lobbies@),
            final(self).next_client_id == old(self).next_client_id,
            final(self).dict == old(self).dict,
            match r {
                Ok(outs) => create_rel(*old(self), *final(self), outs@, leader_id),
                Err(e) => unchanged(*old(self), *final(self)) && (e
                    == DispatchError::MissingRegistryEntry || e == DispatchError::CodeGenExhausted)
                    && (e == DispatchError::MissingRegistryEntry ==> !has_client(
                    old(self).clients@,
                    leader_id,
                )) && (e == DispatchError::CodeGenExhausted ==> old(self).lobbies@.len() > 0),
            },
    {
        let ci = match find_client(&self.clients, leader_id) {
            None => {
                return Err(DispatchError::MissingRegistryEntry);
            },
            Some(i) => i,
        };
        proof {
            assert(old(self).clients@[ci as int].id == leader_id);
            assert(has_client(old(self).clients@, leader_id));
            assert(client_index(old(self).clients@, leader_id) == ci as int) by {
                let ii = client_index(old(self).clients@, leader_id);
                if ii != ci as int {
                    assert(old(self).clients@[ii].id != old(self).clients@[ci as int].id);
                }
            }
        }
        let code = match generate_lobby_code(&self.lobbies) {
            None => {
                return Err(DispatchError::CodeGenExhausted);
            },
            Some(c) => c,
        };
        let words = choose_words(&self.dict);
        let members: Vec<u64> = vec![leader_id];
        let nl = Lobby {
            code,
            leader_id,
            state: LobbyState::WaitingForStart,
            winner: None,
            members,
            words,
        };
        self.lobbies.push(nl);
        let cst = self.clients[ci].state;
        let c = vstd::std_specs::vec::vec_index_mut(&mut self.clients, ci);
        c.lobby = Some(code);
        let line = render_created(code);
        let mut outs: Vec<Out> = Vec::new();
        outs.push(Out { client_id: leader_id, line });
        self.queue.push_back((leader_id, Command::Words));
        self.queue.push_back((leader_id, Command::State(cst)));
        proof {
            let pre = *old(self);
            let post = *self;
            let jl = pre.lobbies@.len() as int;
            assert(post.lobbies@.last().members@ =~= seq![leader_id]);
            assert(post.lobbies@.last().members@.contains(leader_id)) by {
                assert(post.lobbies@.last().members@[0] == leader_id);
            }
            assert(post.lobbies@.last().wf());
            assert forall|i: int| 0 <= i < post.clients@.len() implies #[trigger] client_linked(
                post,
                i,
            ) by {
                if i == ci {
                    assert(post.lobbies@[jl].code == post.clients@[i].lobby->0);
                    assert(post.lobbies@[jl].members@.contains(post.clients@[i].id));
                } else {
                    assert(client_linked(pre, i));
                    assert(post.clients@[i] == pre.clients@[i]);
                    match pre.clients@[i].lobby {
                        Some(lcode) => {
                            let j = choose|j: int|
                                0 <= j < pre.lobbies@.len() && (#[trigger] pre.lobbies@[j]).code
                                    == lcode && pre.lobbies@[j].members@.contains(
                                    pre.clients@[i].id,
                                );
                            assert(post.lobbies@[j] == pre.lobbies@[j]);
                        },
                        None => {},
                    }
                }
            }
            assert forall|j: int, k: int|
                0 <= j < post.lobbies@.len() && 0 <= k
                    < post.lobbies@[j].members@.len() implies #[trigger] member_backed(
                post,
                j,
                k,
            ) by {
                if j == jl {
                    assert(post.lobbies@[j].members@[k] == leader_id);
                    assert(post.clients@[ci as int].id == leader_id);
                } else {
                    assert(member_backed(pre, j, k));
                    let i = choose|i: int|
                        0 <= i < pre.clients@.len() && (#[trigger] pre.clients@[i]).id
                            == pre.lobbies@[j].members@[k] && pre.clients@[i].lobby == Some(
                            pre.lobbies@[j].code,
                        );
                    assert(i != ci);
                    assert(post.clients@[i] == pre.clients@[i]);
                    assert(post.lobbies@[j] == pre.lobbies@[j]);
                }
            }
        }
        Ok(outs)
    }

    /// Record a member's progress: the first report that reaches the end
    /// of the word list crowns that member the winner, once and for all,
    /// moves the lobby to the finished state, and announces it; every
    /// other report is rebroadcast verbatim to the whole lobby, sender
    /// included.
    pub fn broadcast_progress(
        &mut self,
        lobby_code: LobbyCode,
        client_id: u64,
        new_state: PlayerState,
    ) -> (r: Result<Vec<Out>, DispatchError>)
        requires
            old(self).wf(),
            forall|j: int|
                0 <= j < old(self).lobbies@.len() && (#[trigger] old(self).lobbies@[j]).code
                    == lobby_code ==> old(self).lobbies@[j].members@.contains(client_id),
        ensures
            final(self).wf(),
            lobbies_preserved(old(self).lobbies@, final(self).lobbies@),
            winners_monotone(old(self).lobbies@, final(self).lobbies@),
            final(self).clients == old(self).clients,
            final(self).queue == old(self).queue,
            final(self).next_client_id == old(self).next_client_id,
            final(self).dict == old(self).dict,
            match r {
                Ok(outs) => progress_rel(
                    old(self).lobbies@,
                    final(self).lobbies@,
                    outs@,
                    lobby_code,
                    client_id,
                    new_state,
                ),
                Err(e) => e == DispatchError::MissingRegistryEntry && unchanged(
                    *old(self),
                    *final(self),
                ) && !has_lobby(old(self).lobbies@, lobby_code),
            },
    {
        let j = match find_lobby_idx(&self.lobbies, lobby_code) {
            None => {
                return Err(DispatchError::MissingRegistryEntry);
            },
            Some(j) => j,
        };
        proof {
            assert(old(self).lobbies@[j as int].code == lobby_code);
            assert(has_lobby(old(self).lobbies@, lobby_code));
            assert(lobby_index(old(self).lobbies@, lobby_code) == j as int) by {
                let jj = lobby_index(old(self).lobbies@, lobby_code);
                if jj != j as int {
                    assert(old(self).lobbies@[jj].code != old(self).lobbies@[j as int].code);
                }
            }
        }
        let finished = new_state.current_word >= self.lobbies[j].words.len() as u64
            && self.lobbies[j].winner.is_none();
        if finished {
            let l = vstd::std_specs::vec::vec_index_mut(&mut self.lobbies, j);
            l.winner = Some(client_id);
            l.state = LobbyState::RaceFinished;
            let line = render_finished(client_id);
            let outs = broadcast(&self.lobbies[j].members, &line);
            proof {
                let pre = *old(self);
                let post = *self;
                assert(post.lobbies@[j as int].members == pre.lobbies@[j as int].members);
                assert(post.lobbies@[j as int].code == pre.lobbies@[j as int].code);
                assert forall|i: int| 0 <= i < post.clients@.len() implies #[trigger] client_linked(
                    post,
                    i,
                ) by {
                    assert(client_linked(pre, i));
                    match pre.clients@[i].lobby {
                        Some(lcode) => {
                            let jj = choose|jj: int|
                                0 <= jj < pre.lobbies@.len() && (#[trigger] pre.lobbies@[jj]).code
                                    == lcode && pre.lobbies@[jj].members@.contains(
                                    pre.clients@[i].id,
                                );
                            assert(post.lobbies@[jj].code == pre.lobbies@[jj].code);
                            assert(post.lobbies@[jj].members == pre.lobbies@[jj].members);
                        },
                        None => {},
                    }
                }
                assert forall|jj: int, k: int|
                    0 <= jj < post.lobbies@.len() && 0 <= k
                        < post.lobbies@[jj].members@.len() implies #[trigger] member_backed(
                    post,
                    jj,
                    k,
                ) by {
                    assert(post.lobbies@[jj].members == pre.lobbies@[jj].members);
                    assert(post.lobbies@[jj].code == pre.lobbies@[jj].code);
                    assert(member_backed(pre, jj, k));
                }
            }
            Ok(outs)
        } else {
            let line = render_state(client_id, new_state);
            let outs = broadcast(&self.lobbies[j].members, &line);
            Ok(outs)
        }
    }
}


/// Removing one occurrence keeps every other value present.
pub proof fn lemma_remove_contains(s: Seq<u64>, k: int, x: u64)
    requires
        0 <= k < s.len(),
        s.contains(x),
        s[k] != x,
    ensures
        s.remove(k).contains(x),
{
    let t = choose|t: int| 0 <= t < s.len() && s[t] == x;
    if t < k {
        assert(s.remove(k)[t] == x);
    } else {
        assert(s.remove(k)[t - 1] == x);
    }
}

/// The recorded progress of the client wearing this identifier.
pub open spec fn client_state_of(clients: Seq<Client>, id: u64) -> PlayerState {
    clients[choose|i: int| 0 <= i < clients.len() && clients[i].id == id].state
}

/// One progress-echo command per listed member, in listing order, each
/// carrying that member's own recorded progress.
pub open spec fn state_echoes(members: Seq<u64>, clients: Seq<Client>) -> Seq<(u64, Command)> {
    Seq::new(
        members.len(),
        |k: int| (members[k], Command::State(client_state_of(clients, members[k]))),
    )
}

impl Server {
    /// Put a lobby-less client into a lobby: the requested one, or a
    /// random live one when the request carries the sentinel code.  On
    /// success the joiner is acknowledged, its progress is reset, a
    /// words request is queued for it, and a progress echo is queued for
    /// every member, the joiner included, so everyone's view converges.
    /// When no lobby fits, the requester alone hears of the failure and
    /// nothing changes.
    pub fn join_lobby(&mut self, requested: LobbyCode, client_id: u64) -> (r: Result<
        Vec<Out>,
        DispatchError,
    >)
        requires
            old(self).wf(),
            old(self).lobbyless(client_id),
        ensures
            final(self).wf(),
            lobbies_preserved(old(self).lobbies@, final(self).lobbies@),
            winners_monotone(old(self).lobbies@, final(self).lobbies@),
            countdowns_held(old(self).lobbies@, final(self).lobbies@),
            final(self).next_client_id == old(self).next_client_id,
            final(self).dict == old(self).dict,
            match r {
                Ok(outs) => join_fail_rel(*old(self), *final(self), outs@, requested, client_id)
                    || join_ok_rel(*old(self), *final(self), outs@, requested, client_id),
                Err(e) => e == DispatchError::MissingRegistryEntry && unchanged(
                    *old(self),
                    *final(self),
                ) && !has_client(old(self).clients@, client_id),
            },
    {
        let ci = match find_client(&self.clients, client_id) {
            None => {
                return Err(DispatchError::MissingRegistryEntry);
            },
            Some(i) => i,
        };
        proof {
            assert(old(self).clients@[ci as int].id == client_id);
            assert(has_client(old(self).clients@, client_id));
            assert(client_index(old(self).clients@, client_id) == ci as int) by {
                let ii = client_index(old(self).clients@, client_id);
                if ii != ci as int {
                    assert(old(self).clients@[ii].id != old(self).clients@[ci as int].id);
                }
            }
        }
        let is_random = requested == LobbyCode::placeholder();
        let resolved = if is_random {
            match pick_random_lobby(&self.lobbies) {
                None => {
                    let mut outs: Vec<Out> = Vec::new();
                    outs.push(Out { client_id, line: render_join_failed() });
                    return Ok(outs);
                },
                Some(c) => c,
            }
        } else {
            requested
        };
        let j = match find_lobby_idx(&self.lobbies, resolved) {
            None => {
                let mut outs: Vec<Out> = Vec::new();
                outs.push(Out { client_id, line: render_join_failed() });
                return Ok(outs);
            },
            Some(j) => j,
        };
        let c = vstd::std_specs::vec::vec_index_mut(&mut self.clients, ci);
        *c = Client { id: client_id, lobby: Some(resolved), state: PlayerState::start() };
        let l = vstd::std_specs::vec::vec_index_mut(&mut self.lobbies, j);
        l.members.push(client_id);
        proof {
            let pre = *old(self);
            let post = *self;
            assert(post.lobbies@[j as int].members@ == pre.lobbies@[j as int].members@.push(
                client_id,
            ));
            // every member of the joined lobby is a live client
            assert forall|k: int| #![trigger post.lobbies@[j as int].members@[k]]
                0 <= k < post.lobbies@[j as int].members@.len() implies exists|i: int|
                0 <= i < post.clients@.len() && (#[trigger] post.clients@[i]).id
                    == post.lobbies@[j as int].members@[k] by {
                if k == pre.lobbies@[j as int].members@.len() {
                    assert(post.clients@[ci as int].id == client_id);
                } else {
                    assert(member_backed(pre, j as int, k));
                    let i = choose|i: int|
                        0 <= i < pre.clients@.len() && (#[trigger] pre.clients@[i]).id
                            == pre.lobbies@[j as int].members@[k] && pre.clients@[i].lobby == Some(
                            pre.lobbies@[j as int].code,
                        );
                    assert(i != ci) by {
                        if i == ci {
                            assert(pre.clients@[i].lobby is None);
                        }
                    }
                    assert(post.clients@[i].id == post.lobbies@[j as int].members@[k]);
                }
            }
        }
        self.queue.push_back((client_id, Command::Words));
        let ghost base = self.queue@;
        let ghost postclients = self.clients@;
        let ghost members_new = self.lobbies@[j as int].members@;
        let mlen = self.lobbies[j].members.len();
        let mut k: usize = 0;
        while k < mlen
            invariant
                0 <= k <= mlen,
                self.clients@ == postclients,
                members_new == self.lobbies@[j as int].members@,
                mlen == members_new.len(),
                j < self.lobbies@.len(),
                ids_unique(self.clients@),
                forall|t: int| #![trigger members_new[t]]
                    0 <= t < members_new.len() ==> exists|i: int|
                        0 <= i < self.clients@.len() && (#[trigger] self.clients@[i]).id
                            == members_new[t],
                self.queue@ == base + state_echoes(members_new.subrange(0, k as int), postclients),
                self.lobbies@ == old(self).lobbies@.update(
                    j as int,
                    (Lobby {
                        code: old(self).lobbies@[j as int].code,
                        leader_id: old(self).lobbies@[j as int].leader_id,
                        state: old(self).lobbies@[j as int].state,
                        winner: old(self).lobbies@[j as int].winner,
                        members: self.lobbies@[j as int].members,
                        words: old(self).lobbies@[j as int].words,
                    }),
                ),
                self.next_client_id == old(self).next_client_id,
                self.dict == old(self).dict,
            decreases mlen - k,
        {
            proof {
                assert(base + state_echoes(members_new.subrange(0, k as int), postclients)
                    =~= self.queue@);
            }
            let m = self.lobbies[j].members[k];
            match find_client(&self.clients, m) {
                Some(i) => {
                    let st = self.clients[i].state;
                    self.queue.push_back((m, Command::State(st)));
                    proof {
                        let ch = choose|t: int|
                            0 <= t < postclients.len() && postclients[t].id == m;
                        assert(postclients[ch].id == m && postclients[i as int].id == m);
                        assert(ch == i as int);
                        assert(st == client_state_of(postclients, m));
                        assert(self.queue@ =~= base + state_echoes(
                            members_new.subrange(0, k as int + 1),
                            postclients,
                        )) by {
                            assert(state_echoes(members_new.subrange(0, k as int + 1), postclients)
                                =~= state_echoes(
                                members_new.subrange(0, k as int),
                                postclients,
                            ).push((m, Command::State(st))));
                        }
                    }
                },
                None => {
                    proof {
                        assert(false);
                    }
                },
            }
            k = k + 1;
        }
        let mut outs: Vec<Out> = Vec::new();
        outs.push(Out { client_id, line: render_joined(resolved) });
        proof {
            let pre = *old(self);
            let post = *self;
            assert(members_new.subrange(0, mlen as int) =~= members_new);
            assert(post.lobbies@[j as int].members@.contains(client_id)) by {
                assert(post.lobbies@[j as int].members@[members_new.len() - 1] == client_id);
            }
            // well-formedness of the joined lobby: no duplicate members
            assert(post.lobbies@[j as int].wf()) by {
                assert(pre.lobbies@[j as int].wf());
                assert forall|a: int, b: int|
                    0 <= a < b < post.lobbies@[j as int].members@.len() implies post.lobbies@[
                    j as int
                ].members@[a] != post.lobbies@[j as int].members@[b] by {
                    if b == post.lobbies@[j as int].members@.len() - 1 {
                        // the joiner was no member before: its record had no lobby
                        assert(member_backed(pre, j as int, a));
                        let i = choose|i: int|
                            0 <= i < pre.clients@.len() && (#[trigger] pre.clients@[i]).id
                                == pre.lobbies@[j as int].members@[a] && pre.clients@[i].lobby
                                == Some(pre.lobbies@[j as int].code);
                        if pre.lobbies@[j as int].members@[a] == client_id {
                            assert(pre.clients@[i].lobby is None);
                        }
                    }
                }
            }
            assert forall|i: int| 0 <= i < post.clients@.len() implies #[trigger] client_linked(
                post,
                i,
            ) by {
                if i == ci {
                    assert(post.lobbies@[j as int].code == resolved);
                } else {
                    assert(client_linked(pre, i));
                    assert(post.clients@[i] == pre.clients@[i]);
                    match pre.clients@[i].lobby {
                        Some(lcode) => {
                            let jj = choose|jj: int|
                                0 <= jj < pre.lobbies@.len() && (#[trigger] pre.lobbies@[jj]).code
                                    == lcode && pre.lobbies@[jj].members@.contains(
                                    pre.clients@[i].id,
                                );
                            assert(post.lobbies@[jj].code == pre.lobbies@[jj].code);
                            if jj == j as int {
                                let t = choose|t: int|
                                    0 <= t < pre.lobbies@[jj].members@.len() && pre.lobbies@[
                                        jj
                                    ].members@[t] == pre.clients@[i].id;
                                assert(post.lobbies@[jj].members@[t] == pre.clients@[i].id);
                            }
                        },
                        None => {},
                    }
                }
            }
            assert forall|jj: int, k2: int|
                0 <= jj < post.lobbies@.len() && 0 <= k2
                    < post.lobbies@[jj].members@.len() implies #[trigger] member_backed(
                post,
                jj,
                k2,
            ) by {
                if jj == j as int && k2 == post.lobbies@[jj].members@.len() - 1 {
                    assert(post.clients@[ci as int].id == client_id);
                    assert(post.clients@[ci as int].lobby == Some(post.lobbies@[jj].code));
                } else {
                    assert(member_backed(pre, jj, k2));
                    let i = choose|i: int|
                        0 <= i < pre.clients@.len() && (#[trigger] pre.clients@[i]).id
                            == pre.lobbies@[jj].members@[k2] && pre.clients@[i].lobby == Some(
                            pre.lobbies@[jj].code,
                        );
                    assert(i != ci) by {
                        if i == ci {
                            assert(pre.clients@[i].lobby is None);
                        }
                    }
                    assert(post.clients@[i] == pre.clients@[i]);
                    assert(post.lobbies@[jj].code == pre.lobbies@[jj].code);
                    if jj == j as int {
                        assert(post.lobbies@[jj].members@[k2] == pre.lobbies@[jj].members@[k2]);
                    }
                }
            }
        }
        Ok(outs)
    }

    /// Forget a client: drop it from its lobby's membership (if any) and
    /// from the registry.  Nobody is notified and no leadership moves.
    pub fn disconnect_client(&mut self, client_id: u64)
        requires
            old(self).wf(),
        ensures
            final(self).wf(),
            disconnect_rel(*old(self), *final(self), client_id),
    {
        let ci = match find_client(&self.clients, client_id) {
            None => {
                return ;
            },
            Some(i) => i,
        };
        proof {
            assert(old(self).clients@[ci as int].id == client_id);
            assert(has_client(old(self).clients@, client_id));
            assert(client_index(old(self).clients@, client_id) == ci as int) by {
                let ii = client_index(old(self).clients@, client_id);
                if ii != ci as int {
                    assert(old(self).clients@[ii].id != old(self).clients@[ci as int].id);
                }
            }
        }
        let cl = self.clients[ci];
        if let Some(code) = cl.lobby {
            if let Some(j) = find_lobby_idx(&self.lobbies, code) {
                let k_opt = find_member(&self.lobbies[j].members, client_id);
                match k_opt {
                    Some(kk) => {
                        let l = vstd::std_specs::vec::vec_index_mut(&mut self.lobbies, j);
                        l.members.remove(kk);
                    },
                    None => {
                        proof {
                            assert(client_linked(*old(self), ci as int));
                            assert(false);
                        }
                    },
                }
            } else {
                proof {
                    assert(client_linked(*old(self), ci as int));
                    assert(false);
                }
            }
        }
        self.clients.remove(ci);
        proof {
            let pre = *old(self);
            let post = *self;
            // no other lobby ever held this client
            assert forall|j: int, k: int|
                0 <= j < pre.lobbies@.len() && 0 <= k < pre.lobbies@[j].members@.len()
                    && pre.lobbies@[j].members@[k] == client_id implies pre.clients@[ci as int].lobby
                == Some(pre.lobbies@[j].code) by {
                assert(member_backed(pre, j, k));
                let i = choose|i: int|
                    0 <= i < pre.clients@.len() && (#[trigger] pre.clients@[i]).id
                        == pre.lobbies@[j].members@[k] && pre.clients@[i].lobby == Some(
                        pre.lobbies@[j].code,
                    );
                assert(i == ci as int);
            }
            assert forall|i: int| 0 <= i < post.clients@.len() implies #[trigger] client_linked(
                post,
                i,
            ) by {
                let iold: int = if i < ci as int {
                    i
                } else {
                    i + 1
                };
                assert(post.clients@[i] == pre.clients@[iold]);
                assert(client_linked(pre, iold));
                match pre.clients@[iold].lobby {
                    Some(lcode) => {
                        let jj = choose|jj: int|
                            0 <= jj < pre.lobbies@.len() && (#[trigger] pre.lobbies@[jj]).code
                                == lcode && pre.lobbies@[jj].members@.contains(
                                pre.clients@[iold].id,
                            );
                        assert(post.lobbies@[jj].code == pre.lobbies@[jj].code);
                        assert(pre.clients@[iold].id != client_id);
                        if post.lobbies@[jj].members@ == pre.lobbies@[jj].members@ {
                            assert(post.lobbies@[jj].members@.contains(pre.clients@[iold].id));
                        } else {
                            let kk = choose|kk: int|
                                0 <= kk < pre.lobbies@[jj].members@.len() && pre.lobbies@[
                                    jj
                                ].members@[kk] == client_id && post.lobbies@[jj].members@
                                    == pre.lobbies@[jj].members@.remove(kk);
                            lemma_remove_contains(
                                pre.lobbies@[jj].members@,
                                kk,
                                pre.clients@[iold].id,
                            );
                        }
                    },
                    None => {},
                }
            }
            assert forall|jj: int, k2: int|
                0 <= jj < post.lobbies@.len() && 0 <= k2
                    < post.lobbies@[jj].members@.len() implies #[trigger] member_backed(
                post,
                jj,
                k2,
            ) by {
                let m = post.lobbies@[jj].members@[k2];
                let k2old: int = if post.lobbies@[jj].members@ == pre.lobbies@[jj].members@ {
                    k2
                } else {
                    let kk = choose|kk: int|
                        0 <= kk < pre.lobbies@[jj].members@.len() && pre.lobbies@[jj].members@[kk]
                            == client_id && post.lobbies@[jj].members@ == pre.lobbies@[
                            jj
                        ].members@.remove(kk);
                    if k2 < kk {
                        k2
                    } else {
                        k2 + 1
                    }
                };
                assert(pre.lobbies@[jj].members@[k2old] == m);
                assert(member_backed(pre, jj, k2old));
                let i = choose|i: int|
                    0 <= i < pre.clients@.len() && (#[trigger] pre.clients@[i]).id
                        == pre.lobbies@[jj].members@[k2old] && pre.clients@[i].lobby == Some(
                        pre.lobbies@[jj].code,
                    );
                assert(m != client_id) by {
                    if m == client_id {
                        assert(i == ci as int);
                        assert(pre.clients@[ci as int].lobby == Some(pre.lobbies@[jj].code));
                        // the only lobby holding the client lost exactly that entry
                        assert(false);
                    }
                }
                assert(i != ci as int);
                let inew: int = if i < ci as int {
                    i
                } else {
                    i - 1
                };
                assert(post.clients@[inew] == pre.clients@[i]);
                assert(post.lobbies@[jj].code == pre.lobbies@[jj].code);
            }
        }
    }
}


/// The linkage invariants depend only on identifiers, lobby fields,
/// codes and memberships: they carry over whenever those agree.
pub proof fn lemma_links_shape(pre: Server, post: Server)
    requires
        post.clients@.len() == pre.clients@.len(),
        forall|i: int|
            0 <= i < pre.clients@.len() ==> (#[trigger] post.clients@[i]).id == pre.clients@[i].id
                && post.clients@[i].lobby == pre.clients@[i].lobby,
        post.lobbies@.len() == pre.lobbies@.len(),
        forall|j: int|
            0 <= j < pre.lobbies@.len() ==> (#[trigger] post.lobbies@[j]).code
                == pre.lobbies@[j].code && post.lobbies@[j].members == pre.lobbies@[j].members,
        clients_linked(pre),
        members_backed(pre),
    ensures
        clients_linked(post),
        members_backed(post),
{
    assert forall|i: int| 0 <= i < post.clients@.len() implies #[trigger] client_linked(
        post,
        i,
    ) by {
        assert(client_linked(pre, i));
        match pre.clients@[i].lobby {
            Some(code) => {
                let j = choose|j: int|
                    0 <= j < pre.lobbies@.len() && (#[trigger] pre.lobbies@[j]).code == code
                        && pre.lobbies@[j].members@.contains(pre.clients@[i].id);
                assert(post.lobbies@[j].code == code);
                assert(post.lobbies@[j].members@.contains(post.clients@[i].id));
            },
            None => {},
        }
    }
    assert forall|j: int, k: int|
        0 <= j < post.lobbies@.len() && 0 <= k
            < post.lobbies@[j].members@.len() implies #[trigger] member_backed(post, j, k) by {
        assert(member_backed(pre, j, k));
        let i = choose|i: int|
            0 <= i < pre.clients@.len() && (#[trigger] pre.clients@[i]).id
                == pre.lobbies@[j].members@[k] && pre.clients@[i].lobby == Some(
                pre.lobbies@[j].code,
            );
        assert(post.clients@[i].id == post.lobbies@[j].members@[k]);
    }
}

/// Everyone a sweep at `now` writes to: the members of every due
/// lobby, lobbies in registry order, members in listing order.
pub open spec fn sweep_recipients(ls: Seq<Lobby>, now: u64) -> Seq<u64>
    decreases ls.len(),
{
    if ls.len() == 0 {
        Seq::empty()
    } else {
        sweep_recipients(ls.drop_last(), now) + (if countdown_due(ls.last().state, now) {
            ls.last().members@
        } else {
            Seq::empty()
        })
    }
}

/// The countdown of this state has run out.
pub open spec fn countdown_due(st: LobbyState, now: u64) -> bool {
    match st {
        LobbyState::Countdown(d) => d <= now,
        _ => false,
    }
}

impl Server {
    /// Validate one queued command through the pipeline and carry out
    /// the resulting action, exactly as `step_rel` describes.  An
    /// illegal command forcibly disconnects its sender; a command from a
    /// client that vanished is skipped; a restart request aborts with
    /// its error, its semantics being deliberately undefined.
    pub fn step(&mut self, client_id: u64, command: Command, now: u64) -> (r: Result<
        Vec<Out>,
        DispatchError,
    >)
        requires
            old(self).wf(),
            now <= u64::MAX - crate::COUNTDOWN_MILLIS,
        ensures
            final(self).wf(),
            lobbies_preserved(old(self).lobbies@, final(self).lobbies@),
            winners_monotone(old(self).lobbies@, final(self).lobbies@),
            countdowns_held(old(self).lobbies@, final(self).lobbies@),
            final(self).next_client_id == old(self).next_client_id,
            final(self).dict == old(self).dict,
            forall|j: int|
                0 <= j < old(self).lobbies@.len() && old(self).lobbies@[j].winner is None
                    && (#[trigger] final(self).lobbies@[j]).winner is Some
                    ==> final(self).lobbies@[j].winner == Some(client_id)
                    && old(self).lobbies@[j].members@.contains(client_id)
                    && (exists|ps: PlayerState|
                        command == Command::State(ps)
                        && ps.current_word >= old(self).lobbies@[j].words@.len()),
            match r {
                Ok(outs) => step_rel(
                    *old(self),
                    *final(self),
                    outs@,
                    None::<DispatchError>,
                    client_id,
                    command,
                    now,
                ),
                Err(e) => step_rel(
                    *old(self),
                    *final(self),
                    Seq::<Out>::empty(),
                    Some(e),
                    client_id,
                    command,
                    now,
                ),
            },
    {
        let ci = match find_client(&self.clients, client_id) {
            None => {
                let outs: Vec<Out> = Vec::new();
                proof {
                    assert(outs@ =~= Seq::<Out>::empty());
                }
                return Ok(outs);
            },
            Some(i) => i,
        };
        let mut cl = self.clients[ci];
        let ghost cl0 = cl;
        let li: Option<usize> = match cl.lobby {
            Some(c) => find_lobby_idx(&self.lobbies, c),
            None => None,
        };
        proof {
            assert(client_linked(*old(self), ci as int));
            assert(cl.lobby is Some ==> li is Some);
            assert forall|i: int|
                0 <= i < self.clients@.len() && (#[trigger] self.clients@[i]).id
                    == client_id implies i == ci as int by {
                if i != ci as int {
                    assert(self.clients@[i].id != self.clients@[ci as int].id);
                }
            }
            assert(has_client(old(self).clients@, client_id));
            assert(client_index(old(self).clients@, client_id) == ci as int) by {
                let ii = client_index(old(self).clients@, client_id);
                if ii != ci as int {
                    assert(old(self).clients@[ii].id != old(self).clients@[ci as int].id);
                }
            }
            match cl0.lobby {
                Some(code) => {
                    if let Some(l_idx) = li {
                        assert(old(self).lobbies@[l_idx as int].code == code);
                        assert(has_lobby(old(self).lobbies@, code));
                        assert(lobby_index(old(self).lobbies@, code) == l_idx as int) by {
                            let jj = lobby_index(old(self).lobbies@, code);
                            if jj != l_idx as int {
                                assert(old(self).lobbies@[jj].code != old(self).lobbies@[
                                    l_idx as int
                                ].code);
                            }
                        }
                        assert(lobby_snapshot(*old(self), cl0) == Some(
                            old(self).lobbies@[l_idx as int],
                        ));
                    }
                },
                None => {
                    assert(lobby_snapshot(*old(self), cl0) is None);
                },
            }
        }
        let action_res = match li {
            Some(j) => transition_client(&mut cl, Some(&self.lobbies[j]), command),
            None => transition_client(&mut cl, None, command),
        };
        match action_res {
            Err(_) => {
                self.disconnect_client(client_id);
                let outs: Vec<Out> = Vec::new();
                proof {
                    assert(outs@ =~= Seq::<Out>::empty());
                }
                Ok(outs)
            },
            Ok(action) => {
                match action {
                    Action::Noop => {
                        let outs: Vec<Out> = Vec::new();
                        proof {
                            assert(outs@ =~= Seq::<Out>::empty());
                        }
                        Ok(outs)
                    },
                    Action::Disconnect { client_id: cid } => {
                        self.disconnect_client(cid);
                        let outs: Vec<Out> = Vec::new();
                        proof {
                            assert(outs@ =~= Seq::<Out>::empty());
                        }
                        Ok(outs)
                    },
                    Action::CreateLobby { leader_id } => {
                        let rr = self.create_lobby(leader_id);
                        proof {
                            if let Err(e) = rr {
                                assert(e != DispatchError::MissingRegistryEntry) by {
                                    if e == DispatchError::MissingRegistryEntry {
                                        assert(old(self).clients@[ci as int].id == leader_id);
                                    }
                                }
                            }
                        }
                        rr
                    },
                    Action::JoinLobby { lobby_code, client_id: cid } => {
                        let rr = self.join_lobby(lobby_code, cid);
                        match rr {
                            Ok(outs) => Ok(outs),
                            Err(e) => {
                                proof {
                                    assert(old(self).clients@[ci as int].id == cid);
                                    assert(false);
                                }
                                Err(e)
                            },
                        }
                    },
                    Action::StartLobby => {
                        match cl.lobby {
                            Some(code) => {
                                let rr = self.start_lobby(code, now);
                                proof {
                                    // the pipeline admits a start only outside a countdown
                                    let jl = choose|j: int|
                                        0 <= j < old(self).lobbies@.len() && (#[trigger] old(
                                            self,
                                        ).lobbies@[j]).code == code && old(
                                            self,
                                        ).lobbies@[j].members@.contains(old(self).clients@[
                                            ci as int
                                        ].id);
                                    assert(!(old(self).lobbies@[jl].state is Countdown));
                                    assert forall|j: int|
                                        0 <= j < old(self).lobbies@.len() && old(
                                            self,
                                        ).lobbies@[j].state is Countdown implies (
                                        #[trigger] final(self).lobbies@[j]).state == old(
                                            self,
                                        ).lobbies@[j].state by {
                                        assert(j != jl);
                                    }
                                }
                                match rr {
                                    Ok(outs) => Ok(outs),
                                    Err(e) => {
                                        proof {
                                            assert(false);
                                        }
                                        Err(e)
                                    },
                                }
                            },
                            None => {
                                proof {
                                    assert(false);
                                }
                                Ok(Vec::new())
                            },
                        }
                    },
                    Action::SendWords { lobby_code, client_id: cid } => {
                        let rr = self.send_words(lobby_code, cid);
                        match rr {
                            Ok(outs) => Ok(outs),
                            Err(e) => {
                                proof {
                                    assert(false);
                                }
                                Err(e)
                            },
                        }
                    },
                    Action::UpdatedState { lobby_code, client_id: cid, new_state } => {
                        let c = vstd::std_specs::vec::vec_index_mut(&mut self.clients, ci);
                        *c = cl;
                        proof {
                            lemma_links_shape(*old(self), *self);
                        }
                        let rr = self.broadcast_progress(lobby_code, cid, new_state);
                        proof {
                            // a lobby in its countdown only ever sees reset reports,
                            // which cannot crown a winner, so its state stands
                            if rr is Ok {
                                if let Some(l_idx) = li {
                                    assert(old(self).lobbies@[l_idx as int].code == lobby_code);
                                    assert(lobby_index(old(self).lobbies@, lobby_code)
                                        == l_idx as int) by {
                                        let jj = lobby_index(old(self).lobbies@, lobby_code);
                                        if jj != l_idx as int {
                                            assert(old(self).lobbies@[jj].code != old(
                                                self,
                                            ).lobbies@[l_idx as int].code);
                                        }
                                    }
                                    assert(old(self).lobbies@[l_idx as int].wf());
                                    if old(self).lobbies@[l_idx as int].state is Countdown {
                                        assert(new_state == PlayerState::initial());
                                        assert(self.lobbies@ == old(self).lobbies@);
                                    }
                                }
                            }
                            assert(countdowns_held(old(self).lobbies@, self.lobbies@));
                        }
                        match rr {
                            Ok(outs) => Ok(outs),
                            Err(e) => {
                                proof {
                                    assert(false);
                                }
                                Err(e)
                            },
                        }
                    },
                    Action::RestartLobby => Err(DispatchError::RestartUnimplemented),
                }
            },
        }
    }

    /// Drain the pending-command queue in arrival order to a fixpoint,
    /// up to the per-tick cap, collecting every line to send: exactly a
    /// `pump_rel` trace whose length only stops short of emptying the
    /// queue when it hits the cap.  Commands whose dispatch aborts are
    /// dropped; everything else keeps flowing.
    pub fn pump(&mut self, now: u64) -> (r: Vec<Out>)
        requires
            old(self).wf(),
            now <= u64::MAX - crate::COUNTDOWN_MILLIS,
        ensures
            final(self).wf(),
            lobbies_preserved(old(self).lobbies@, final(self).lobbies@),
            winners_monotone(old(self).lobbies@, final(self).lobbies@),
            countdowns_held(old(self).lobbies@, final(self).lobbies@),
            final(self).next_client_id == old(self).next_client_id,
            final(self).dict == old(self).dict,
            exists|n: nat|
                #![trigger pump_rel(*old(self), *final(self), r@, now, n)]
                n <= MAX_COMMANDS_PER_TICK as nat && pump_rel(
                    *old(self),
                    *final(self),
                    r@,
                    now,
                    n,
                ) && (final(self).queue@.len() == 0 || n == MAX_COMMANDS_PER_TICK as nat),
    {
        let mut outs: Vec<Out> = Vec::new();
        let mut iter: usize = 0;
        proof {
            assert(outs@ =~= Seq::<Out>::empty());
        }
        while iter < MAX_COMMANDS_PER_TICK
            invariant
                self.wf(),
                now <= u64::MAX - crate::COUNTDOWN_MILLIS,
                lobbies_preserved(old(self).lobbies@, self.lobbies@),
                winners_monotone(old(self).lobbies@, self.lobbies@),
                countdowns_held(old(self).lobbies@, self.lobbies@),
                self.next_client_id == old(self).next_client_id,
                self.dict == old(self).dict,
                0 <= iter <= MAX_COMMANDS_PER_TICK,
                pump_rel(*old(self), *self, outs@, now, iter as nat),
            ensures
                self.queue@.len() == 0 || iter == MAX_COMMANDS_PER_TICK,
            decreases MAX_COMMANDS_PER_TICK - iter,
        {
            let ghost mid = *self;
            let ghost outs_pre = outs@;
            if self.queue.len() == 0 {
                break ;
            }
            match self.queue.pop_front() {
                None => {
                    proof {
                        assert(false);
                    }
                },
                Some((cid, cmd)) => {
                    proof {
                        lemma_links_stable(mid, *self);
                    }
                    let ghost popped = *self;
                    let step_res = self.step(cid, cmd, now);
                    let ghost o2: Seq<Out> = match step_res {
                        Ok(ref o) => o@,
                        Err(_) => Seq::empty(),
                    };
                    let ghost err: Option<DispatchError> = match step_res {
                        Ok(_) => None,
                        Err(e) => Some(e),
                    };
                    match step_res {
                        Ok(mut o) => {
                            outs.append(&mut o);
                        },
                        Err(_) => {},
                    }
                    proof {
                        assert(outs@ =~= outs_pre + o2);
                        assert(popped.queue@ =~= mid.queue@.drop_first());
                        assert((cid, cmd) == mid.queue@[0]);
                        assert(step_rel(popped, *self, o2, err, mid.queue@[0].0, mid.queue@[0].1,
                            now));
                        lemma_pump_extend(
                            *old(self),
                            mid,
                            popped,
                            *self,
                            outs_pre,
                            o2,
                            err,
                            now,
                            iter as nat,
                        );
                        assert(pump_rel(*old(self), *self, outs@, now, (iter + 1) as nat));
                    }
                },
            }
            iter = iter + 1;
            proof {
                assert(lobbies_preserved(old(self).lobbies@, self.lobbies@)) by {
                    assert(lobbies_preserved(old(self).lobbies@, mid.lobbies@));
                    assert(lobbies_preserved(mid.lobbies@, self.lobbies@));
                }
                assert(winners_monotone(old(self).lobbies@, self.lobbies@)) by {
                    assert(winners_monotone(old(self).lobbies@, mid.lobbies@));
                    assert(winners_monotone(mid.lobbies@, self.lobbies@));
                }
                assert(countdowns_held(old(self).lobbies@, self.lobbies@)) by {
                    assert(countdowns_held(old(self).lobbies@, mid.lobbies@));
                    assert(countdowns_held(mid.lobbies@, self.lobbies@));
                    assert forall|j: int|
                        0 <= j < old(self).lobbies@.len() && old(
                            self,
                        ).lobbies@[j].state is Countdown implies (#[trigger] self.lobbies@[j]).state
                        == old(self).lobbies@[j].state by {
                        assert(mid.lobbies@[j].state == old(self).lobbies@[j].state);
                    }
                }
            }
        }
        proof {
            assert(pump_rel(*old(self), *self, outs@, now, iter as nat));
        }
        outs
    }

    /// The timer sweep: advance every lobby whose countdown deadline has
    /// passed into the running race, telling all its members, and touch
    /// nothing else.  A countdown never ends before its recorded
    /// deadline.
    pub fn sweep(&mut self, now: u64) -> (r: Vec<Out>)
        requires
            old(self).wf(),
        ensures
            final(self).wf(),
            final(self).clients == old(self).clients,
            final(self).queue == old(self).queue,
            final(self).next_client_id == old(self).next_client_id,
            final(self).dict == old(self).dict,
            final(self).lobbies@.len() == old(self).lobbies@.len(),
            lobbies_preserved(old(self).lobbies@, final(self).lobbies@),
            winners_monotone(old(self).lobbies@, final(self).lobbies@),
            forall|j: int|
                0 <= j < old(self).lobbies@.len() ==> ((#[trigger] final(self).lobbies@[j]).members
                    == old(self).lobbies@[j].members && final(self).lobbies@[j].winner == old(
                    self,
                ).lobbies@[j].winner && (if countdown_due(old(self).lobbies@[j].state, now) {
                    final(self).lobbies@[j].state == LobbyState::RaceRunning
                } else {
                    final(self).lobbies@[j].state == old(self).lobbies@[j].state
                })),
            r@.len() == sweep_recipients(old(self).lobbies@, now).len(),
            forall|o: int|
                0 <= o < r@.len() ==> (#[trigger] r@[o]).client_id == sweep_recipients(
                    old(self).lobbies@,
                    now,
                )[o] && r@[o].line@ == starting_line(),
    {
        let mut outs: Vec<Out> = Vec::new();
        let line = render_starting();
        let n = self.lobbies.len();
        let mut j: usize = 0;
        proof {
            assert(old(self).lobbies@.subrange(0, 0) =~= Seq::<Lobby>::empty());
        }
        while j < n
            invariant
                0 <= j <= n,
                n == self.lobbies@.len(),
                self.clients == old(self).clients,
                self.queue == old(self).queue,
                self.next_client_id == old(self).next_client_id,
                self.dict == old(self).dict,
                old(self).wf(),
                line@ == starting_line(),
                self.lobbies@.len() == old(self).lobbies@.len(),
                forall|t: int|
                    0 <= t < j ==> ((#[trigger] self.lobbies@[t]).members == old(
                        self,
                    ).lobbies@[t].members && self.lobbies@[t].winner == old(
                        self,
                    ).lobbies@[t].winner && self.lobbies@[t].code == old(self).lobbies@[t].code
                        && self.lobbies@[t].words == old(self).lobbies@[t].words
                        && self.lobbies@[t].leader_id == old(self).lobbies@[t].leader_id && (
                    if countdown_due(old(self).lobbies@[t].state, now) {
                        self.lobbies@[t].state == LobbyState::RaceRunning
                    } else {
                        self.lobbies@[t].state == old(self).lobbies@[t].state
                    })),
                forall|t: int|
                    j <= t < n ==> (#[trigger] self.lobbies@[t]) == old(self).lobbies@[t],
                outs@.len() == sweep_recipients(old(self).lobbies@.subrange(0, j as int), now).len(),
                forall|o: int|
                    0 <= o < outs@.len() ==> (#[trigger] outs@[o]).client_id == sweep_recipients(
                        old(self).lobbies@.subrange(0, j as int),
                        now,
                    )[o] && outs@[o].line@ == starting_line(),
            decreases n - j,
        {
            let due = match self.lobbies[j].state {
                LobbyState::Countdown(d) => d <= now,
                _ => false,
            };
            if due {
                let l = vstd::std_specs::vec::vec_index_mut(&mut self.lobbies, j);
                l.state = LobbyState::RaceRunning;
                proof {
                    assert(self.lobbies@[j as int].members@ == old(self).lobbies@[
                        j as int
                    ].members@);
                }
                let mut more = broadcast(&self.lobbies[j].members, &line);
                let ghost gmore = more@;
                let ghost outs_pre = outs@;
                outs.append(&mut more);
                proof {
                    assert(outs@ == outs_pre + gmore);
                    assert(is_broadcast(gmore, old(self).lobbies@[j as int].members@, line@));
                    let pre = old(self).lobbies@.subrange(0, j as int);
                    let post = old(self).lobbies@.subrange(0, j as int + 1);
                    assert(post.drop_last() =~= pre);
                    assert(post.last() == old(self).lobbies@[j as int]);
                    assert(sweep_recipients(post, now) == sweep_recipients(pre, now) + old(
                        self,
                    ).lobbies@[j as int].members@);
                    assert forall|o: int| 0 <= o < outs@.len() implies (
                    #[trigger] outs@[o]).client_id == sweep_recipients(post, now)[o] && outs@[
                        o
                    ].line@ == starting_line() by {
                        if o < outs_pre.len() {
                            assert(outs@[o] == outs_pre[o]);
                            assert(sweep_recipients(post, now)[o] == sweep_recipients(pre, now)[o]);
                        } else {
                            assert(outs@[o] == gmore[o - outs_pre.len()]);
                            assert(sweep_recipients(post, now)[o] == old(self).lobbies@[
                                j as int
                            ].members@[o - outs_pre.len()]);
                        }
                    }
                }
            } else {
                proof {
                    assert(!countdown_due(old(self).lobbies@[j as int].state, now));
                    let pre = old(self).lobbies@.subrange(0, j as int);
                    let post = old(self).lobbies@.subrange(0, j as int + 1);
                    assert(post.drop_last() =~= pre);
                    assert(post.last() == old(self).lobbies@[j as int]);
                    assert(sweep_recipients(post, now) =~= sweep_recipients(pre, now));
                }
            }
            j = j + 1;
        }
        proof {
            assert(old(self).lobbies@.subrange(0, n as int) =~= old(self).lobbies@);
            lemma_links_shape(*old(self), *self);
            assert forall|t: int| 0 <= t < self.lobbies@.len() implies (
            #[trigger] self.lobbies@[t]).wf() by {
                assert(old(self).lobbies@[t].wf());
            }
        }
        outs
    }
}


/// Law: a client names a lobby exactly when that lobby's membership set
/// holds the client's identifier.
pub proof fn lemma_membership_coherent(s: Server, i: int, j: int)
    requires
        s.wf(),
        0 <= i < s.clients@.len(),
        0 <= j < s.lobbies@.len(),
    ensures
        s.clients@[i].lobby == Some(s.lobbies@[j].code) <==> s.lobbies@[j].members@.contains(
            s.clients@[i].id,
        ),
{
    if s.clients@[i].lobby == Some(s.lobbies@[j].code) {
        assert(client_linked(s, i));
        let jj = choose|jj: int|
            0 <= jj < s.lobbies@.len() && (#[trigger] s.lobbies@[jj]).code == s.lobbies@[j].code
                && s.lobbies@[jj].members@.contains(s.clients@[i].id);
        assert(jj == j) by {
            if jj != j {
                assert(s.lobbies@[jj].code != s.lobbies@[j].code);
            }
        }
    }
    if s.lobbies@[j].members@.contains(s.clients@[i].id) {
        let k = choose|k: int|
            0 <= k < s.lobbies@[j].members@.len() && s.lobbies@[j].members@[k]
                == s.clients@[i].id;
        assert(member_backed(s, j, k));
        let ii = choose|ii: int|
            0 <= ii < s.clients@.len() && (#[trigger] s.clients@[ii]).id
                == s.lobbies@[j].members@[k] && s.clients@[ii].lobby == Some(s.lobbies@[j].code);
        assert(ii == i) by {
            if ii != i {
                assert(s.clients@[ii].id != s.clients@[i].id);
            }
        }
    }
}

} // verus!
