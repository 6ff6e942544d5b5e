use rustyline::history::{FileHistory, History as _};
use shell_core::commands::{
    builtin_sinks, cd_missing_message, cd_target, external_sinks, is_executable, jobs_report, CdTarget, JobEntry,
    JobStatus, Sink,
};
use shell_core::completion::ShellCompleter;
use shell_core::enums::{redirect_token, SpecialTokens};
use shell_core::history::{history_file_text, history_listing, reload_history};
use shell_core::structs::History;

fn words(v: &[&str]) -> Vec<String> {
    v.iter().map(|s| s.to_string()).collect()
}

#[test]
fn cd_targets() {
    assert_eq!(cd_target("/tmp"), CdTarget::Absolute);
    assert_eq!(cd_target("/"), CdTarget::Absolute);
    assert_eq!(cd_target("~"), CdTarget::Home);
    assert_eq!(cd_target("~/docs"), CdTarget::Home);
    assert_eq!(cd_target("~docs"), CdTarget::Relative);
    assert_eq!(cd_target("docs"), CdTarget::Relative);
    assert_eq!(cd_target("./~"), CdTarget::Relative);
    assert_eq!(cd_target(""), CdTarget::Relative);
}

#[test]
fn cd_message() {
    assert_eq!(cd_missing_message("/nope"), "cd: /nope: No such file or directory\n");
}

#[test]
fn executable_bits() {
    assert!(is_executable(0o755));
    assert!(is_executable(0o100));
    assert!(is_executable(0o001));
    assert!(!is_executable(0o644));
    assert!(!is_executable(0o4666));
}

#[test]
fn redirect_kinds() {
    assert!(SpecialTokens::StdOut.is_stdout_redirect());
    assert!(SpecialTokens::StdAppendExtended.is_stdout_redirect());
    assert!(!SpecialTokens::StdErr.is_stdout_redirect());
    assert!(!SpecialTokens::ErrAppend.is_stdout_redirect());
    assert!(!SpecialTokens::Pipe.is_stdout_redirect());
    assert!(SpecialTokens::StdAppend.should_append());
    assert!(SpecialTokens::ErrAppend.should_append());
    assert!(!SpecialTokens::StdOut.should_append());
    assert!(!SpecialTokens::StdErr.should_append());
}

#[test]
fn redirect_texts_read_back() {
    let all = [
        SpecialTokens::StdOut,
        SpecialTokens::StdOutExtended,
        SpecialTokens::StdErr,
        SpecialTokens::StdAppend,
        SpecialTokens::StdAppendExtended,
        SpecialTokens::ErrAppend,
    ];
    for t in all {
        assert_eq!(redirect_token(&t.to_string()), Some(t));
    }
    assert_eq!(SpecialTokens::Pipe.to_string(), "|");
    assert_eq!(redirect_token("|"), None);
    assert_eq!(redirect_token("3>"), None);
}

#[test]
fn sinks_of_builtins_and_programs() {
    assert_eq!(builtin_sinks(false, Some(SpecialTokens::StdOut)), (Sink::Pipe, Sink::Discard));
    assert_eq!(builtin_sinks(true, Some(SpecialTokens::StdOut)), (Sink::File, Sink::Terminal));
    assert_eq!(builtin_sinks(true, Some(SpecialTokens::ErrAppend)), (Sink::Terminal, Sink::File));
    assert_eq!(builtin_sinks(true, None), (Sink::Terminal, Sink::Terminal));
    assert_eq!(external_sinks(false, None), (Sink::Pipe, Sink::Terminal));
    assert_eq!(external_sinks(false, Some(SpecialTokens::StdOut)), (Sink::File, Sink::Terminal));
    assert_eq!(external_sinks(false, Some(SpecialTokens::StdErr)), (Sink::Pipe, Sink::File));
    for r in [None, Some(SpecialTokens::StdOut), Some(SpecialTokens::StdErr), Some(SpecialTokens::StdAppend)] {
        assert_eq!(builtin_sinks(true, r), external_sinks(true, r));
    }
}

#[test]
fn jobs_listing() {
    let jobs = vec![
        JobEntry { num: 1, command: "sleep".to_string(), args: words(&["10"]) },
        JobEntry { num: 2, command: "lost".to_string(), args: vec![] },
        JobEntry { num: 3, command: "make".to_string(), args: words(&["-j", "4"]) },
        JobEntry { num: 4, command: "tail".to_string(), args: words(&["-f", "log"]) },
    ];
    let statuses = vec![JobStatus::Running, JobStatus::Unknown, JobStatus::Done, JobStatus::Running];
    let r = jobs_report(&jobs, &statuses);
    assert_eq!(
        r.text,
        "[1]   Running                 sleep 10 &\n\
         [3]   Done                 make -j 4\n\
         [4]-  Running                 tail -f log &\n"
    );
    assert_eq!(r.keep, vec![true, false, false, true]);
}

#[test]
fn jobs_marks_last_and_second_last() {
    let jobs = vec![
        JobEntry { num: 7, command: "a".to_string(), args: vec![] },
        JobEntry { num: 8, command: "b".to_string(), args: vec![] },
    ];
    let r = jobs_report(&jobs, &vec![JobStatus::Done, JobStatus::Running]);
    assert_eq!(r.text, "[7]-  Done                 a \n[8]+  Running                 b  &\n");
    assert_eq!(r.keep, vec![false, true]);
    let empty = jobs_report(&vec![], &vec![]);
    assert_eq!(empty.text, "");
    assert!(empty.keep.is_empty());
}

#[test]
fn own_history_keeps_order() {
    let mut h = History::new();
    assert!(h.get_iter().is_empty());
    h.add_entry("ls".to_string());
    h.add_entry("pwd".to_string());
    h.add_entry("ls".to_string());
    assert_eq!(h.get_iter(), words(&["ls", "pwd", "ls"]));
}

fn history_of(lines: &[&str]) -> FileHistory {
    let mut h = FileHistory::new();
    for l in lines {
        h.add(l).unwrap();
    }
    h
}

#[test]
fn history_listing_numbers_from_one() {
    let h = history_of(&["echo a", "ls", "pwd"]);
    assert_eq!(history_listing(&h, None), "    1  echo a\n    2  ls\n    3  pwd\n");
    assert_eq!(history_listing(&h, Some(2)), "    2  ls\n    3  pwd\n");
    assert_eq!(history_listing(&h, Some(0)), "");
    assert_eq!(history_listing(&h, Some(3)), history_listing(&h, None));
}

#[test]
fn history_listing_two_digit_numbers() {
    let lines: Vec<String> = (1..=12).map(|i| format!("cmd{}", i)).collect();
    let refs: Vec<&str> = lines.iter().map(|s| s.as_str()).collect();
    let h = history_of(&refs);
    assert_eq!(history_listing(&h, Some(2)), "    11  cmd11\n    12  cmd12\n");
}

#[test]
fn history_file_text_has_one_line_per_entry() {
    let h = history_of(&["a", "b c"]);
    assert_eq!(history_file_text(&h), "a\nb c\n");
    assert_eq!(history_file_text(&FileHistory::new()), "");
}

#[test]
fn history_reload_applies_rules_again() {
    let mut h = history_of(&["a", "b", "a"]);
    reload_history(&mut h);
    assert_eq!(history_file_text(&h), "a\nb\na\n");
    let mut h2 = FileHistory::new();
    h2.ignore_dups(false).unwrap();
    h2.add("x").unwrap();
    h2.add("x").unwrap();
    h2.ignore_dups(true).unwrap();
    reload_history(&mut h2);
    assert_eq!(history_file_text(&h2), "x\n");
}

#[test]
fn completion_word_after_last_space() {
    let c = ShellCompleter;
    assert_eq!(c.current_word("echo he"), (5, "he".to_string()));
    assert_eq!(c.current_word("ec"), (0, "ec".to_string()));
    assert_eq!(c.current_word("cat "), (4, String::new()));
    assert_eq!(c.current_word("é x"), (3, "x".to_string()));
    assert_eq!(c.current_word(""), (0, String::new()));
}

#[test]
fn command_candidates_sorted_and_unique() {
    let c = ShellCompleter;
    let found = words(&["exa", "echo", "zsh", "ex"]);
    assert_eq!(c.command_candidates(&found, "e"), words(&["echo ", "ex ", "exa ", "exit "]));
    assert_eq!(c.command_candidates(&found, "ex"), words(&["ex ", "exa ", "exit "]));
    assert_eq!(c.command_candidates(&vec![], "p"), words(&["pwd "]));
    assert_eq!(c.command_candidates(&vec![], "q"), Vec::<String>::new());
    assert_eq!(c.command_candidates(&vec![], ""), words(&["cd ", "echo ", "exit ", "pwd ", "type "]));
}

#[test]
fn command_candidates_begin_with_prefix() {
    let c = ShellCompleter;
    let found = words(&["grep", "git", "gcc", "go", "ls"]);
    for p in ["", "g", "gi", "x"] {
        for cand in c.command_candidates(&found, p) {
            assert!(cand.starts_with(p));
            assert!(cand.ends_with(' '));
        }
    }
}

#[test]
fn path_prefix_split() {
    let c = ShellCompleter;
    assert_eq!(c.split_path_prefix("src/ma"), ("src".to_string(), "ma".to_string()));
    assert_eq!(c.split_path_prefix("a/b/c"), ("a/b".to_string(), "c".to_string()));
    assert_eq!(c.split_path_prefix("ma"), ("./".to_string(), "ma".to_string()));
    assert_eq!(c.split_path_prefix("/x"), ("./".to_string(), "x".to_string()));
    assert_eq!(c.split_path_prefix("dir/"), ("dir".to_string(), String::new()));
}

#[test]
fn path_candidates_format() {
    let c = ShellCompleter;
    let names = words(&["main.rs", "mod", "lib.rs"]);
    let dirs = vec![false, true, false];
    assert_eq!(c.path_candidates("./", "m", &names, &dirs), words(&["main.rs ", "mod/"]));
    assert_eq!(c.path_candidates("src", "", &names, &dirs), words(&["src/main.rs ", "src/mod/", "src/lib.rs "]));
    assert_eq!(c.path_candidates("src", "z", &names, &dirs), Vec::<String>::new());
}

#[test]
fn history_listing_with_too_large_limit_has_no_answer() {
    let h = history_of(&["a", "b"]);
    assert_eq!(shell_core::history::try_history_listing(&h, Some(3)), None);
    assert_eq!(shell_core::history::try_history_listing(&h, Some(1)), Some("    2  b\n".to_string()));
    assert_eq!(shell_core::history::try_history_listing(&h, None), Some(history_listing(&h, None)));
}
