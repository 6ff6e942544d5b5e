use shell_core::commands::{command_echo, command_type, TypeReport};
use shell_core::enums::{parse_usize, Commands, HistoryArgs, HistoryFlags, ShellError};

fn words(v: &[&str]) -> Vec<String> {
    v.iter().map(|s| s.to_string()).collect()
}

#[test]
fn echo_joins_with_spaces() {
    assert_eq!(command_echo(&words(&["hello", "world"])), "hello world\n");
    assert_eq!(command_echo(&words(&["a b", "c"])), "a b c\n");
    assert_eq!(command_echo(&[]), "\n");
}

#[test]
fn builtins_are_recognized() {
    assert!(matches!(Commands::from_str("echo", &words(&["x"])), Ok(Some(Commands::Echo(v))) if v == words(&["x"])));
    assert!(matches!(Commands::from_str("type", &words(&["ls"])), Ok(Some(Commands::Type(_)))));
    assert!(matches!(Commands::from_str("exit", &[]), Ok(Some(Commands::Exit))));
    assert!(matches!(Commands::from_str("pwd", &[]), Ok(Some(Commands::Pwd))));
    assert!(matches!(Commands::from_str("cd", &words(&["/tmp"])), Ok(Some(Commands::Cd(p))) if p == "/tmp"));
    assert!(matches!(Commands::from_str("jobs", &[]), Ok(Some(Commands::Jobs))));
    assert!(matches!(Commands::from_str("ls", &words(&["-l"])), Ok(None)));
    assert!(matches!(Commands::from_str("Echo", &[]), Ok(None)));
}

#[test]
fn cd_without_argument_is_refused() {
    match Commands::from_str("cd", &[]) {
        Err(ShellError::InvalidArguments(m)) => assert_eq!(m, "cd: missing argument"),
        _ => panic!("expected an error"),
    }
}

#[test]
fn history_arguments() {
    assert!(matches!(Commands::from_str("history", &[]), Ok(Some(Commands::History(HistoryArgs::PrintAll)))));
    assert!(matches!(Commands::from_str("history", &words(&["5"])), Ok(Some(Commands::History(HistoryArgs::Limit(5))))));
    assert!(matches!(Commands::from_str("history", &words(&["+7"])), Ok(Some(Commands::History(HistoryArgs::Limit(7))))));
    assert!(matches!(
        Commands::from_str("history", &words(&["-r", "f.txt"])),
        Ok(Some(Commands::History(HistoryArgs::File(HistoryFlags::Read, f)))) if f == "f.txt"
    ));
    assert!(matches!(
        Commands::from_str("history", &words(&["-a", "g"])),
        Ok(Some(Commands::History(HistoryArgs::File(HistoryFlags::Append, _))))
    ));
    match Commands::from_str("history", &words(&["abc"])) {
        Err(ShellError::InvalidArguments(m)) => assert_eq!(m, "history: invalid argument: abc"),
        _ => panic!("expected an error"),
    }
    match Commands::from_str("history", &words(&["-5"])) {
        Err(e) => assert_eq!(e.to_string(), "Invalid arguments: history: invalid argument: -5"),
        _ => panic!("expected an error"),
    }
}

#[test]
fn history_flags() {
    assert_eq!(HistoryFlags::from_str("-r").unwrap(), HistoryFlags::Read);
    assert_eq!(HistoryFlags::from_str("-w").unwrap(), HistoryFlags::Write);
    assert_eq!(HistoryFlags::from_str("-a").unwrap(), HistoryFlags::Append);
    match HistoryFlags::from_str("-x") {
        Err(ShellError::InvalidFlag(f)) => assert_eq!(f, "-x"),
        _ => panic!("expected an error"),
    }
    for f in [HistoryFlags::Read, HistoryFlags::Write, HistoryFlags::Append] {
        assert_eq!(HistoryFlags::from_str(&f.to_string()).unwrap(), f);
    }
}

#[test]
fn command_names() {
    assert_eq!(Commands::Echo(vec![]).to_string(), "echo");
    assert_eq!(Commands::History(HistoryArgs::PrintAll).to_string(), "history");
    assert_eq!(Commands::Cd("x".to_string()).to_string(), "cd");
    for name in ["echo", "type", "exit", "pwd", "cd", "history", "jobs"] {
        let args = if name == "cd" { words(&["x"]) } else { vec![] };
        let c = Commands::from_str(name, &args).unwrap().unwrap();
        assert_eq!(c.to_string(), name);
    }
}

#[test]
fn usize_parsing() {
    assert_eq!(parse_usize("42"), Some(42));
    assert_eq!(parse_usize("+7"), Some(7));
    assert_eq!(parse_usize("007"), Some(7));
    assert_eq!(parse_usize(""), None);
    assert_eq!(parse_usize("+"), None);
    assert_eq!(parse_usize("-1"), None);
    assert_eq!(parse_usize("1a"), None);
    assert_eq!(parse_usize(" 1"), None);
    assert_eq!(parse_usize(&usize::MAX.to_string()), Some(usize::MAX));
    assert_eq!(parse_usize(&format!("{}0", usize::MAX)), None);
    for s in ["0", "12", "+3", "-3", "x", "99999999999999999999999"] {
        assert_eq!(parse_usize(s), s.parse::<usize>().ok());
    }
}

#[test]
fn type_reports() {
    match command_type(&words(&["echo"])) {
        TypeReport::Builtin(line) => assert_eq!(line, "echo is a shell builtin\n"),
        _ => panic!("expected a builtin"),
    }
    match command_type(&words(&["history", "3"])) {
        TypeReport::Builtin(line) => assert_eq!(line, "history is a shell builtin\n"),
        _ => panic!("expected a builtin"),
    }
    match command_type(&words(&["ls"])) {
        TypeReport::Lookup(name) => assert_eq!(name, "ls"),
        _ => panic!("expected a lookup"),
    }
    match command_type(&words(&["cd"])) {
        TypeReport::Failed(e) => assert_eq!(e.to_string(), "Invalid arguments: cd: missing argument"),
        _ => panic!("expected a failure"),
    }
}

#[test]
fn error_texts() {
    assert_eq!(ShellError::IoError("boom".to_string()).to_string(), "IO error: boom");
    assert_eq!(ShellError::CommandNotFound("foo".to_string()).to_string(), "foo: not found");
    assert_eq!(ShellError::InvalidArguments("x".to_string()).to_string(), "Invalid arguments: x");
    assert_eq!(ShellError::InvalidFlag("-q".to_string()).to_string(), "Invalid flag: -q");
}
