use shell_core::enums::SpecialTokens;
use shell_core::parse::{parse_input, tokens_to_stage, try_parse_input};
use shell_core::structs::PipelineStage;

fn words(v: &[&str]) -> Vec<String> {
    v.iter().map(|s| s.to_string()).collect()
}

fn redirect_of(stage: &PipelineStage) -> Option<(SpecialTokens, String)> {
    stage.redirect.as_ref().map(|r| (r.token, r.target.clone()))
}

#[test]
fn plain_words_split_on_spaces() {
    let stages = parse_input("echo hello   world");
    assert_eq!(stages.len(), 1);
    assert_eq!(stages[0].command, "echo");
    assert_eq!(stages[0].args, words(&["hello", "world"]));
    assert!(stages[0].redirect.is_none());
}

#[test]
fn surrounding_whitespace_is_trimmed() {
    let stages = parse_input("  \techo x \n");
    assert_eq!(stages.len(), 1);
    assert_eq!(stages[0].args, words(&["x"]));
}

#[test]
fn single_quotes_keep_everything_literal() {
    let stages = parse_input("echo 'hello    world' 'a\\b' 'x\"y'");
    assert_eq!(stages[0].args, words(&["hello    world", "a\\b", "x\"y"]));
}

#[test]
fn double_quotes_keep_single_quotes_and_spaces() {
    let stages = parse_input("echo \"it's  here\" \"a|b\"");
    assert_eq!(stages[0].args, words(&["it's  here", "a|b"]));
}

#[test]
fn backslash_escapes_next_character() {
    let stages = parse_input("echo a\\ b \\'c\\' \"x\\\"y\"");
    assert_eq!(stages[0].args, words(&["a b", "'c'", "x\"y"]));
}

#[test]
fn empty_quote_pairs_are_removed_first() {
    let stages = parse_input("echo 'ab''cd' \"x\"\"y\" ''");
    assert_eq!(stages[0].args, words(&["abcd", "xy"]));
}

#[test]
fn adjacent_quoted_parts_join_into_one_word() {
    let stages = parse_input("echo 'a'\"b\"c");
    assert_eq!(stages[0].args, words(&["abc"]));
}

#[test]
fn pipes_separate_stages() {
    let stages = parse_input("cat file.txt | grep x | wc -l");
    assert_eq!(stages.len(), 3);
    assert_eq!(stages[0].command, "cat");
    assert_eq!(stages[1].command, "grep");
    assert_eq!(stages[1].args, words(&["x"]));
    assert_eq!(stages[2].command, "wc");
    assert_eq!(stages[2].args, words(&["-l"]));
}

#[test]
fn pipe_without_spaces() {
    let stages = parse_input("ls|wc");
    assert_eq!(stages.len(), 2);
    assert_eq!(stages[0].command, "ls");
    assert_eq!(stages[1].command, "wc");
}

#[test]
fn redirections_are_recognized() {
    let cases = [
        (">", SpecialTokens::StdOut),
        ("1>", SpecialTokens::StdOutExtended),
        ("2>", SpecialTokens::StdErr),
        (">>", SpecialTokens::StdAppend),
        ("1>>", SpecialTokens::StdAppendExtended),
        ("2>>", SpecialTokens::ErrAppend),
    ];
    for (op, token) in cases {
        let stages = parse_input(&format!("echo hi {} out.txt", op));
        assert_eq!(stages.len(), 1);
        assert_eq!(stages[0].args, words(&["hi"]));
        assert_eq!(redirect_of(&stages[0]), Some((token, "out.txt".to_string())));
    }
}

#[test]
fn redirection_without_target_is_dropped() {
    let stages = parse_input("echo hi >");
    assert_eq!(stages[0].args, words(&["hi"]));
    assert!(stages[0].redirect.is_none());
}

#[test]
fn quoted_operator_still_redirects() {
    let stages = parse_input("echo '>' x");
    assert!(stages[0].args.is_empty());
    assert_eq!(redirect_of(&stages[0]), Some((SpecialTokens::StdOut, "x".to_string())));
}

#[test]
fn pipe_with_no_command_before_it_is_refused() {
    assert!(try_parse_input("| ls").is_none());
    assert!(try_parse_input("ls || wc").is_none());
    assert!(try_parse_input("ls | | wc").is_none());
}

#[test]
fn empty_line_gives_no_stage() {
    assert!(parse_input("").is_empty());
    assert!(parse_input("    ").is_empty());
}

#[test]
fn trailing_pipe_drops_nothing_before_it() {
    let stages = parse_input("ls |");
    assert_eq!(stages.len(), 1);
    assert_eq!(stages[0].command, "ls");
}

#[test]
fn unclosed_quote_at_end_drops_the_command() {
    assert!(parse_input("echo a '").is_empty());
}

#[test]
fn unclosed_quote_keeps_the_rest_in_one_word() {
    let stages = parse_input("echo 'a b");
    assert_eq!(stages[0].args, words(&["a b"]));
}

#[test]
fn tokens_to_stage_takes_words_before_first_operator() {
    let stage = tokens_to_stage(words(&["echo", "a", "b", ">", "f", "g", "2>", "h"]));
    assert_eq!(stage.command, "echo");
    assert_eq!(stage.args, words(&["a", "b"]));
    assert_eq!(redirect_of(&stage), Some((SpecialTokens::StdErr, "h".to_string())));
}

#[test]
fn tokens_to_stage_keeps_last_target() {
    let stage = tokens_to_stage(words(&["cat", ">", "f", "g"]));
    assert!(stage.args.is_empty());
    assert_eq!(redirect_of(&stage), Some((SpecialTokens::StdOut, "g".to_string())));
}

#[test]
fn tokens_to_stage_command_only() {
    let stage = tokens_to_stage(words(&["pwd"]));
    assert_eq!(stage.command, "pwd");
    assert!(stage.args.is_empty());
    assert!(stage.redirect.is_none());
}

#[test]
fn parsed_words_are_never_empty() {
    for line in ["echo '' x", "a  b 'c' \"\" | d > e", "x\\  y", "'' | b"] {
        if let Some(stages) = try_parse_input(line) {
            for s in &stages {
                assert!(!s.command.is_empty());
                assert!(s.args.iter().all(|a| !a.is_empty()));
                if let Some(r) = &s.redirect {
                    assert!(!r.target.is_empty());
                }
            }
        }
    }
}

#[test]
fn line_without_pipe_gives_at_most_one_stage() {
    for line in ["echo a b", "", "'x' \"y\"", "x > y", "a\\ b"] {
        let stages = try_parse_input(line).expect("a line without a pipe is never refused");
        assert!(stages.len() <= 1);
    }
}
