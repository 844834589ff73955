use lib::shell::{db_command, trim_line, Command};

#[test]
fn exit_command_with_surrounding_whitespace() {
    assert!(matches!(db_command(".exit"), Command::Exit));
    assert!(matches!(db_command(".exit\n"), Command::Exit));
    assert!(matches!(db_command("  \t.exit \r\n"), Command::Exit));
}

#[test]
fn other_commands_are_unrecognized() {
    match db_command("  select * from t \n") {
        Command::Unrecognized(s) => assert_eq!(s, "select * from t"),
        Command::Exit => panic!("not an exit"),
    }
    match db_command(".exit now\n") {
        Command::Unrecognized(s) => assert_eq!(s, ".exit now"),
        Command::Exit => panic!("not an exit"),
    }
    match db_command("\n") {
        Command::Unrecognized(s) => assert_eq!(s, ""),
        Command::Exit => panic!("not an exit"),
    }
    match db_command(". exit") {
        Command::Unrecognized(s) => assert_eq!(s, ". exit"),
        Command::Exit => panic!("not an exit"),
    }
}

#[test]
fn trim_line_matches_str_trim() {
    for s in ["", "   ", "a", " a ", "\u{3000}x y\u{2028}", "\tab\n\n", "x\u{a0}"] {
        assert_eq!(trim_line(s), s.trim());
    }
}
