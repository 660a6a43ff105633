use cortex::command::{parse_command, Command};

#[test]
fn known_commands() {
    assert!(matches!(parse_command(b"latency"), Command::Latency));
    assert!(matches!(parse_command(b"quit"), Command::Quit));
    assert!(matches!(parse_command(b"exit"), Command::Quit));
    assert!(matches!(parse_command(b"help"), Command::Help));
}

#[test]
fn surrounding_whitespace_is_ignored() {
    assert!(matches!(parse_command(b"  latency \n"), Command::Latency));
    assert!(matches!(parse_command(b"\tquit\r\n"), Command::Quit));
}

#[test]
fn empty_line_is_a_no_op() {
    assert!(matches!(parse_command(b""), Command::Empty));
    assert!(matches!(parse_command(b"   \n"), Command::Empty));
}

#[test]
fn anything_else_is_unknown() {
    assert!(matches!(parse_command(b"latencyx"), Command::Unknown));
    assert!(matches!(parse_command(b"LATENCY"), Command::Unknown));
    assert!(matches!(parse_command(b"show latency"), Command::Unknown));
}
