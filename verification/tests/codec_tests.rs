use typerace::codec::{
    parse_command, render_command, render_connected, render_countdown, render_created,
    render_finished, render_join_failed, render_joined, render_starting, render_state,
    render_words, split_lines,
};
use typerace::types::{Command, LobbyCode, ParseError};
use typerace::PlayerState;

fn s(bytes: &[u8]) -> String {
    String::from_utf8(bytes.to_vec()).unwrap()
}

#[test]
fn parse_simple_commands() {
    assert_eq!(parse_command(b"START"), Ok(Command::Start));
    assert_eq!(parse_command(b"CREATE"), Ok(Command::Create));
    assert_eq!(parse_command(b"RESTART"), Ok(Command::Restart));
    assert_eq!(parse_command(b"JOIN RANDOM"), Ok(Command::JoinRandom));
}

#[test]
fn parse_join_with_code() {
    assert_eq!(
        parse_command(b"JOIN ABCDE"),
        Ok(Command::Join(LobbyCode(65, 66, 67, 68, 69)))
    );
    assert_eq!(parse_command(b"JOIN ABCD"), Err(ParseError::BadCodeLength));
    assert_eq!(parse_command(b"JOIN ABCDEF"), Err(ParseError::BadCodeLength));
}

#[test]
fn parse_state_reports() {
    assert_eq!(
        parse_command(b"STATE 1 30 1"),
        Ok(Command::State(PlayerState {
            current_word: 1,
            current_completed_character: 30,
            did_make_mistake: true,
        }))
    );
    // repeated whitespace between tokens is tolerated
    assert_eq!(
        parse_command(b"STATE  4   7  0"),
        Ok(Command::State(PlayerState {
            current_word: 4,
            current_completed_character: 7,
            did_make_mistake: false,
        }))
    );
    // the mistake flag means "equal to one", not "non-zero"
    assert_eq!(
        parse_command(b"STATE 1 2 2"),
        Ok(Command::State(PlayerState {
            current_word: 1,
            current_completed_character: 2,
            did_make_mistake: false,
        }))
    );
    // trailing tokens beyond the three fields are ignored
    assert_eq!(
        parse_command(b"STATE 1 2 1 junk"),
        Ok(Command::State(PlayerState {
            current_word: 1,
            current_completed_character: 2,
            did_make_mistake: true,
        }))
    );
}

#[test]
fn parse_state_errors() {
    assert_eq!(parse_command(b"STATE 1 2"), Err(ParseError::UnexpectedEnd));
    assert_eq!(parse_command(b"STATE "), Err(ParseError::UnexpectedEnd));
    assert_eq!(parse_command(b"STATE 1 x 0"), Err(ParseError::BadNumber));
    assert_eq!(
        parse_command(b"STATE 99999999999999999999999 1 0"),
        Err(ParseError::BadNumber)
    );
    // the mistake field must fit a byte
    assert_eq!(parse_command(b"STATE 1 2 300"), Err(ParseError::BadNumber));
}

#[test]
fn parse_unknown_lines() {
    assert_eq!(parse_command(b"HELLO"), Err(ParseError::UnknownCommand));
    assert_eq!(parse_command(b""), Err(ParseError::UnknownCommand));
    assert_eq!(parse_command(b"start"), Err(ParseError::UnknownCommand));
}

#[test]
fn render_server_lines() {
    assert_eq!(s(&render_connected(7)), "CONNECTED 7\n");
    assert_eq!(s(&render_connected(0)), "CONNECTED 0\n");
    assert_eq!(
        s(&render_connected(u64::MAX)),
        "CONNECTED 18446744073709551615\n"
    );
    assert_eq!(s(&render_created(LobbyCode(65, 66, 67, 68, 69))), "CREATED ABCDE\n");
    assert_eq!(s(&render_joined(LobbyCode(90, 89, 88, 87, 86))), "JOINED ZYXWV\n");
    assert_eq!(s(&render_join_failed()), "JOIN_FAILED\n");
    assert_eq!(s(&render_countdown(5)), "COUNTDOWN 5\n");
    assert_eq!(s(&render_starting()), "STARTING\n");
    assert_eq!(s(&render_finished(12)), "FINISHED 12\n");
    let ps = PlayerState { current_word: 4, current_completed_character: 5, did_make_mistake: true };
    assert_eq!(s(&render_state(3, ps)), "STATE 3 4 5 1\n");
}

#[test]
fn render_words_line() {
    let words: Vec<Vec<u8>> = vec![b"alpha".to_vec(), b"beta".to_vec(), b"gamma".to_vec()];
    assert_eq!(s(&render_words(&words)), "WORDS alpha beta gamma\n");
}

#[test]
fn command_round_trip() {
    let cases = vec![
        Command::Start,
        Command::Create,
        Command::Restart,
        Command::JoinRandom,
        Command::Join(LobbyCode(81, 87, 69, 82, 84)),
        Command::State(PlayerState {
            current_word: 19,
            current_completed_character: 3,
            did_make_mistake: false,
        }),
        Command::State(PlayerState {
            current_word: 0,
            current_completed_character: 0,
            did_make_mistake: true,
        }),
    ];
    for c in cases {
        let line = render_command(c);
        assert_eq!(parse_command(&line), Ok(c));
    }
}

#[test]
fn split_lines_extracts_complete_lines() {
    let mut buf: Vec<u8> = b"AB\nCD\nEF".to_vec();
    let lines = split_lines(&mut buf);
    assert_eq!(lines, vec![b"AB".to_vec(), b"CD".to_vec()]);
    assert_eq!(buf, b"EF".to_vec());

    let mut empty: Vec<u8> = Vec::new();
    assert_eq!(split_lines(&mut empty), Vec::<Vec<u8>>::new());

    let mut no_newline: Vec<u8> = b"PARTIAL".to_vec();
    assert_eq!(split_lines(&mut no_newline), Vec::<Vec<u8>>::new());
    assert_eq!(no_newline, b"PARTIAL".to_vec());

    let mut empties: Vec<u8> = b"\n\nX\n".to_vec();
    assert_eq!(
        split_lines(&mut empties),
        vec![Vec::<u8>::new(), Vec::<u8>::new(), b"X".to_vec()]
    );
    assert!(empties.is_empty());
}
