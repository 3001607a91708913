use typerace::matchmaking::{generate_lobby_code, pick_random_lobby};
use typerace::server::Server;
use typerace::types::{Lobby, LobbyState};

fn dict() -> Vec<Vec<u8>> {
    (0..25).map(|i| format!("word{:02}", i).into_bytes()).collect()
}

fn text(line: &[u8]) -> String {
    String::from_utf8(line.to_vec()).unwrap()
}

/// Drives one client through CREATE and returns (server, leader id, code line text, code bytes).
fn created_server() -> (Server, u64, String) {
    let mut s = Server::new(dict());
    let (id, hello) = s.connect();
    assert_eq!(id, 1);
    assert_eq!(text(&hello), "CONNECTED 1\n");
    s.ingest_line(id, b"CREATE").unwrap();
    let outs = s.pump(0);
    assert_eq!(outs.len(), 3);
    let created = text(&outs[0].line);
    assert!(created.starts_with("CREATED "));
    let code = created.trim_end().strip_prefix("CREATED ").unwrap().to_string();
    assert_eq!(code.len(), 5);
    assert!(code.bytes().all(|b| b.is_ascii_uppercase()));
    // the full word list follows at once
    let words_line = text(&outs[1].line);
    assert!(words_line.starts_with("WORDS "));
    assert_eq!(words_line.trim_end().split(' ').count(), 21);
    // and an initial progress echo
    assert_eq!(text(&outs[2].line), "STATE 1 0 0 0\n");
    assert!(outs.iter().all(|o| o.client_id == 1));
    (s, id, code)
}

#[test]
fn connect_greets_first_client_with_id_one() {
    let mut s = Server::new(dict());
    let (id, hello) = s.connect();
    assert_eq!(id, 1);
    assert_eq!(text(&hello), "CONNECTED 1\n");
    let (id2, hello2) = s.connect();
    assert_eq!(id2, 2);
    assert_eq!(text(&hello2), "CONNECTED 2\n");
}

#[test]
fn create_sends_code_words_and_state() {
    created_server();
}

#[test]
fn join_sends_same_words_and_state_for_everyone() {
    let (mut s, _leader, code) = created_server();
    let (id2, _) = s.connect();
    assert_eq!(id2, 2);
    let join = format!("JOIN {}", code);
    s.ingest_line(id2, join.as_bytes()).unwrap();
    let outs = s.pump(0);
    // JOINED, WORDS for the joiner, then a STATE line per member fanned
    // out to every member (two members, so two lines each)
    assert_eq!(text(&outs[0].line), format!("JOINED {}\n", code));
    assert_eq!(outs[0].client_id, 2);
    let words_line = text(&outs[1].line);
    assert!(words_line.starts_with("WORDS "));
    assert_eq!(outs[1].client_id, 2);
    let rest: Vec<(u64, String)> =
        outs[2..].iter().map(|o| (o.client_id, text(&o.line))).collect();
    assert!(rest.contains(&(1, "STATE 1 0 0 0\n".to_string())));
    assert!(rest.contains(&(2, "STATE 1 0 0 0\n".to_string())));
    assert!(rest.contains(&(1, "STATE 2 0 0 0\n".to_string())));
    assert!(rest.contains(&(2, "STATE 2 0 0 0\n".to_string())));
    assert_eq!(rest.len(), 4);
}

#[test]
fn join_unknown_code_fails_without_membership() {
    let (mut s, _leader, _code) = created_server();
    let (id2, _) = s.connect();
    s.ingest_line(id2, b"JOIN QQQQQ").unwrap();
    let outs = s.pump(0);
    assert_eq!(outs.len(), 1);
    assert_eq!(outs[0].client_id, id2);
    assert_eq!(text(&outs[0].line), "JOIN_FAILED\n");
    assert_eq!(s.clients.iter().find(|c| c.id == id2).unwrap().lobby, None);
}

#[test]
fn join_random_with_no_lobby_fails() {
    let mut s = Server::new(dict());
    let (id, _) = s.connect();
    s.ingest_line(id, b"JOIN RANDOM").unwrap();
    let outs = s.pump(0);
    assert_eq!(outs.len(), 1);
    assert_eq!(text(&outs[0].line), "JOIN_FAILED\n");
}

#[test]
fn join_random_lands_in_the_only_lobby() {
    let (mut s, _leader, code) = created_server();
    let (id2, _) = s.connect();
    s.ingest_line(id2, b"JOIN RANDOM").unwrap();
    let outs = s.pump(0);
    assert_eq!(text(&outs[0].line), format!("JOINED {}\n", code));
    assert!(s.lobbies[0].members.contains(&id2));
}

#[test]
fn leader_start_counts_down_for_all_members() {
    let (mut s, leader, code) = created_server();
    let (id2, _) = s.connect();
    s.ingest_line(id2, format!("JOIN {}", code).as_bytes()).unwrap();
    s.pump(0);
    // a non-leader's START is silently ignored
    s.ingest_line(id2, b"START").unwrap();
    let outs = s.pump(1000);
    assert!(outs.is_empty());
    assert_eq!(s.lobbies[0].state, LobbyState::WaitingForStart);
    // the leader's START reaches both members
    s.ingest_line(leader, b"START").unwrap();
    let outs = s.pump(1000);
    let got: Vec<(u64, String)> = outs.iter().map(|o| (o.client_id, text(&o.line))).collect();
    assert!(got.contains(&(1, "COUNTDOWN 5\n".to_string())));
    assert!(got.contains(&(2, "COUNTDOWN 5\n".to_string())));
    assert_eq!(got.len(), 2);
    assert_eq!(s.lobbies[0].state, LobbyState::Countdown(6000));
}

#[test]
fn race_starts_only_at_the_deadline() {
    let (mut s, leader, _code) = created_server();
    s.ingest_line(leader, b"START").unwrap();
    s.pump(1000);
    assert_eq!(s.lobbies[0].state, LobbyState::Countdown(6000));
    // a tick strictly before the recorded deadline changes nothing
    let outs = s.sweep(5999);
    assert!(outs.is_empty());
    assert_eq!(s.lobbies[0].state, LobbyState::Countdown(6000));
    // the first tick at or past the deadline starts the race, unprompted
    let outs = s.sweep(6000);
    assert_eq!(outs.len(), 1);
    assert_eq!(outs[0].client_id, leader);
    assert_eq!(text(&outs[0].line), "STARTING\n");
    assert_eq!(s.lobbies[0].state, LobbyState::RaceRunning);
}

fn racing_pair() -> (Server, u64, u64) {
    let (mut s, leader, code) = created_server();
    let (id2, _) = s.connect();
    s.ingest_line(id2, format!("JOIN {}", code).as_bytes()).unwrap();
    s.pump(0);
    s.ingest_line(leader, b"START").unwrap();
    s.pump(0);
    s.sweep(5000);
    assert_eq!(s.lobbies[0].state, LobbyState::RaceRunning);
    (s, leader, id2)
}

#[test]
fn first_finisher_wins_exactly_once() {
    let (mut s, leader, id2) = racing_pair();
    // reaching the end of the twenty-word list finishes the race
    s.ingest_line(leader, b"STATE 20 0 0").unwrap();
    let outs = s.pump(9000);
    let got: Vec<(u64, String)> = outs.iter().map(|o| (o.client_id, text(&o.line))).collect();
    assert!(got.contains(&(leader, "FINISHED 1\n".to_string())));
    assert!(got.contains(&(id2, "FINISHED 1\n".to_string())));
    assert_eq!(got.len(), 2);
    assert_eq!(s.lobbies[0].winner, Some(leader));
    assert_eq!(s.lobbies[0].state, LobbyState::RaceFinished);
    // a later finishing report is an ordinary progress broadcast, reset
    // to the default now that the race is over, never a second FINISHED
    s.ingest_line(id2, b"STATE 20 0 0").unwrap();
    let outs = s.pump(9000);
    let got: Vec<(u64, String)> = outs.iter().map(|o| (o.client_id, text(&o.line))).collect();
    assert!(got.contains(&(leader, "STATE 2 0 0 0\n".to_string())));
    assert!(got.contains(&(id2, "STATE 2 0 0 0\n".to_string())));
    assert_eq!(got.len(), 2);
    assert_eq!(s.lobbies[0].winner, Some(leader));
    assert_eq!(s.lobbies[0].state, LobbyState::RaceFinished);
}

#[test]
fn progress_before_the_race_is_reset_to_default() {
    let (mut s, _leader, code) = created_server();
    let (id2, _) = s.connect();
    s.ingest_line(id2, format!("JOIN {}", code).as_bytes()).unwrap();
    s.pump(0);
    // reports sent while waiting are replaced with the initial state
    s.ingest_line(id2, b"STATE 7 9 1").unwrap();
    let outs = s.pump(0);
    let got: Vec<String> = outs.iter().map(|o| text(&o.line)).collect();
    assert!(got.iter().all(|l| l == "STATE 2 0 0 0\n"));
    assert_eq!(s.clients.iter().find(|c| c.id == id2).unwrap().state.current_word, 0);
}

#[test]
fn illegal_join_while_in_lobby_disconnects() {
    let (mut s, leader, code) = created_server();
    let (id2, _) = s.connect();
    s.ingest_line(id2, format!("JOIN {}", code).as_bytes()).unwrap();
    s.pump(0);
    assert!(s.lobbies[0].members.contains(&id2));
    s.ingest_line(id2, b"JOIN QQQQQ").unwrap();
    s.pump(0);
    assert!(s.clients.iter().all(|c| c.id != id2));
    assert!(!s.lobbies[0].members.contains(&id2));
    assert!(s.lobbies[0].members.contains(&leader));
}

#[test]
fn write_failure_queues_a_disconnect() {
    let (mut s, leader, _code) = created_server();
    s.note_write_failure(leader);
    s.pump(0);
    assert!(s.clients.is_empty());
    assert!(s.lobbies[0].members.is_empty());
}

#[test]
fn malformed_line_keeps_the_connection() {
    let mut s = Server::new(dict());
    let (id, _) = s.connect();
    assert!(s.ingest_line(id, b"GARBAGE").is_err());
    let outs = s.pump(0);
    assert!(outs.is_empty());
    assert_eq!(s.clients.len(), 1);
}

#[test]
fn generated_codes_are_five_uppercase_letters() {
    for _ in 0..32 {
        let none: Vec<Lobby> = Vec::new();
        let code = generate_lobby_code(&none).unwrap();
        for b in [code.0, code.1, code.2, code.3, code.4] {
            assert!(b.is_ascii_uppercase());
        }
    }
}

#[test]
fn no_random_pick_from_an_empty_registry() {
    let none: Vec<Lobby> = Vec::new();
    assert_eq!(pick_random_lobby(&none), None);
}

#[test]
fn lobby_words_stay_fixed_for_its_lifetime() {
    let (mut s, leader, code) = created_server();
    let before = s.lobbies[0].words.clone();
    let (id2, _) = s.connect();
    s.ingest_line(id2, format!("JOIN {}", code).as_bytes()).unwrap();
    s.pump(0);
    s.ingest_line(leader, b"START").unwrap();
    s.pump(0);
    s.sweep(9000);
    s.ingest_line(leader, b"STATE 20 0 0").unwrap();
    s.pump(9000);
    assert_eq!(s.lobbies[0].words, before);
    assert_eq!(s.lobbies[0].words.len(), 20);
}

#[test]
fn restart_is_rejected_without_effect() {
    let (mut s, leader, _code) = created_server();
    let before_members = s.lobbies[0].members.clone();
    s.ingest_line(leader, b"RESTART").unwrap();
    let outs = s.pump(0);
    assert!(outs.is_empty());
    assert_eq!(s.lobbies.len(), 1);
    assert_eq!(s.lobbies[0].members, before_members);
    assert_eq!(s.lobbies[0].state, LobbyState::WaitingForStart);
    assert_eq!(s.clients.len(), 1);
}

#[test]
fn second_create_in_a_lobby_changes_nothing() {
    let (mut s, leader, _code) = created_server();
    s.ingest_line(leader, b"CREATE").unwrap();
    let outs = s.pump(0);
    assert!(outs.is_empty());
    assert_eq!(s.lobbies.len(), 1);
}

#[test]
fn live_lobbies_never_share_a_code() {
    let mut s = Server::new(dict());
    let (a, _) = s.connect();
    let (b, _) = s.connect();
    s.ingest_line(a, b"CREATE").unwrap();
    s.ingest_line(b, b"CREATE").unwrap();
    s.pump(0);
    assert_eq!(s.lobbies.len(), 2);
    assert_ne!(s.lobbies[0].code, s.lobbies[1].code);
}

#[test]
fn default_progress_is_the_initial_state() {
    let d = typerace::PlayerState::default();
    assert_eq!(d.current_word, 0);
    assert_eq!(d.current_completed_character, 0);
    assert!(!d.did_make_mistake);
}
