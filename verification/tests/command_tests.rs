use actor_apps::command::{parse_command, Command, CommandError};
use actor_apps::echo_protocol::InputLine;

/// What the console makes of a line, computed with std's own splitting and
/// number parsing.
fn reference(line: &str) -> Result<Command, CommandError> {
    let mut parts = line.split_ascii_whitespace();
    let Some(cmd) = parts.next() else { return Err(CommandError::NoCommand) };
    match cmd {
        "add" | "rm" => {
            let add = cmd == "add";
            let Some(delta) = parts.next() else {
                return Err(if add { CommandError::AddUsage } else { CommandError::RemoveUsage });
            };
            match delta.parse::<usize>() {
                Ok(d) => Ok(if add { Command::Add(d) } else { Command::Remove(d) }),
                Err(_) => Err(if add { CommandError::AddDelta } else { CommandError::RemoveDelta }),
            }
        },
        "test" => {
            let Some(c) = parts.next() else { return Err(CommandError::TestUsage) };
            let Ok(clients) = c.parse::<usize>() else { return Err(CommandError::TestClients) };
            let Some(n) = parts.next() else { return Err(CommandError::TestUsage) };
            let Ok(requests) = n.parse::<usize>() else { return Err(CommandError::TestRequests) };
            Ok(Command::Test { clients, requests })
        },
        unknown => Ok(Command::Unknown(unknown.to_string())),
    }
}

#[test]
fn add_with_delta() {
    assert_eq!(parse_command("add 5"), Ok(Command::Add(5)));
}

#[test]
fn add_with_plus_sign_and_extra_words() {
    assert_eq!(parse_command("  add\t+7 more words\r\n"), Ok(Command::Add(7)));
}

#[test]
fn add_without_delta() {
    assert_eq!(parse_command("add"), Err(CommandError::AddUsage));
    assert_eq!(parse_command("add   \t"), Err(CommandError::AddUsage));
}

#[test]
fn add_with_bad_delta() {
    assert_eq!(parse_command("add x"), Err(CommandError::AddDelta));
    assert_eq!(parse_command("add -1"), Err(CommandError::AddDelta));
    assert_eq!(parse_command("add +"), Err(CommandError::AddDelta));
    assert_eq!(parse_command("add ++1"), Err(CommandError::AddDelta));
    assert_eq!(parse_command("add 1.5"), Err(CommandError::AddDelta));
}

#[test]
fn add_delta_at_the_limit() {
    let max = format!("add {}", usize::MAX);
    assert_eq!(parse_command(&max), Ok(Command::Add(usize::MAX)));
    let over = format!("add {}0", usize::MAX);
    assert_eq!(parse_command(&over), Err(CommandError::AddDelta));
    let leading_zeros = format!("add 000{}", usize::MAX);
    assert_eq!(parse_command(&leading_zeros), Ok(Command::Add(usize::MAX)));
}

#[test]
fn rm_commands() {
    assert_eq!(parse_command("rm 3"), Ok(Command::Remove(3)));
    assert_eq!(parse_command("rm"), Err(CommandError::RemoveUsage));
    assert_eq!(parse_command("rm three"), Err(CommandError::RemoveDelta));
    assert_eq!(parse_command("rm 0"), Ok(Command::Remove(0)));
}

#[test]
fn test_commands() {
    assert_eq!(parse_command("test 2 3"), Ok(Command::Test { clients: 2, requests: 3 }));
    assert_eq!(parse_command("test"), Err(CommandError::TestUsage));
    assert_eq!(parse_command("test 2"), Err(CommandError::TestUsage));
    assert_eq!(parse_command("test x"), Err(CommandError::TestClients));
    assert_eq!(parse_command("test x 3"), Err(CommandError::TestClients));
    assert_eq!(parse_command("test 2 y"), Err(CommandError::TestRequests));
}

#[test]
fn empty_lines_hold_no_command() {
    assert_eq!(parse_command(""), Err(CommandError::NoCommand));
    assert_eq!(parse_command(" \t\r\n\x0C"), Err(CommandError::NoCommand));
}

#[test]
fn unknown_commands_keep_their_word() {
    assert_eq!(parse_command("hello world"), Ok(Command::Unknown("hello".to_string())));
    assert_eq!(parse_command("ADD 1"), Ok(Command::Unknown("ADD".to_string())));
    assert_eq!(parse_command("añadir 1"), Ok(Command::Unknown("añadir".to_string())));
    assert_eq!(parse_command("addx 1"), Ok(Command::Unknown("addx".to_string())));
}

#[test]
fn vertical_tab_is_not_whitespace() {
    assert_eq!(parse_command("\x0Badd 1"), Ok(Command::Unknown("\x0Badd".to_string())));
}

#[test]
fn non_ascii_digits_are_not_digits() {
    assert_eq!(parse_command("add ٣"), Err(CommandError::AddDelta));
}

#[test]
fn agrees_with_std_on_many_lines() {
    let lines = [
        "", " ", "add", "add 1", "add 01", "add +0", "add -0", "add 1 2 3", "rm 9", "rm +", "rm 99999999999999999999999",
        "test 1 1", "test 0 0", "test 1", "test a b", "test 1 b", "\tadd\u{a0}1", "add\u{a0}1", "x", "tést 1 2",
        "test\n4\n5", "add 18446744073709551615", "add 18446744073709551616", "rm\x0C7",
    ];
    for line in lines {
        assert_eq!(parse_command(line), reference(line), "line {:?}", line);
    }
}

#[test]
fn input_line_reads_its_command() {
    let line = InputLine("rm 2".to_string());
    assert_eq!(line.command(), Ok(Command::Remove(2)));
}
