use std::collections::HashSet;

use r15_shell::chat::{merge_seen_ids, take_new_messages, ChatMessage};
use r15_shell::shell::{
    cookie_file_step, merged_cookie, message_line, parse_shell_command, shell_step, short_timestamp,
    ShellAction, ShellCommand, ShellError,
};

fn message(id: u64, text: &str) -> ChatMessage {
    ChatMessage {
        message_id: id,
        user_id: 7,
        user_name: "alice".to_string(),
        text: text.to_string(),
        timestamp: "2024-03-05T10:15:00+00:00".to_string(),
    }
}

#[test]
fn commands_are_recognised() {
    assert!(matches!(parse_shell_command("   \n"), ShellCommand::Empty));
    assert!(matches!(parse_shell_command("/quit\n"), ShellCommand::Quit));
    assert!(matches!(parse_shell_command("  /exit "), ShellCommand::Quit));
    assert!(matches!(parse_shell_command("/help"), ShellCommand::Help));
    assert!(matches!(parse_shell_command("/show-cookie"), ShellCommand::ShowCookie));
    match parse_shell_command("/cookie  a=1 \n") {
        ShellCommand::SetCookie(v) => assert_eq!(v, " a=1"),
        other => panic!("unexpected {other:?}"),
    }
    match parse_shell_command("/cookie-file   ./c.txt  ") {
        ShellCommand::LoadCookieFile(p) => assert_eq!(p, "./c.txt"),
        other => panic!("unexpected {other:?}"),
    }
    match parse_shell_command("/nope") {
        ShellCommand::Unknown(t) => assert_eq!(t, "/nope"),
        other => panic!("unexpected {other:?}"),
    }
    match parse_shell_command("/cookie") {
        ShellCommand::Unknown(t) => assert_eq!(t, "/cookie"),
        other => panic!("unexpected {other:?}"),
    }
    match parse_shell_command("  hello there  ") {
        ShellCommand::Send(t) => assert_eq!(t, "hello there"),
        other => panic!("unexpected {other:?}"),
    }
}

#[test]
fn cookie_input_merges_or_is_empty() {
    assert_eq!(merged_cookie("b=2", Some("a=1")), Some("a=1; b=2".to_string()));
    assert_eq!(merged_cookie("expires=1", Some("a=1")), None);
    assert_eq!(merged_cookie("\n  a=1 \n", None), Some("a=1".to_string()));
}

#[test]
fn short_timestamps() {
    assert_eq!(short_timestamp("2024-03-05T10:15:00+00:00"), "10:15:00");
    assert_eq!(short_timestamp("10:15"), "10:15");
    assert_eq!(short_timestamp(""), "");
}

#[test]
fn message_lines() {
    let line = message_line("new", &message(1, "hi there"));
    assert_eq!(line, "[new] 10:15:00 alice: hi there");
}

#[test]
fn seen_ids_skip_zero() {
    let seen = merge_seen_ids(&[message(0, "a"), message(5, "b"), message(5, "c"), message(9, "d")]);
    let expected: HashSet<u64> = [5, 9].into_iter().collect();
    assert_eq!(seen, expected);
}

#[test]
fn new_messages_are_shown_once() {
    let mut seen: HashSet<u64> = [1].into_iter().collect();
    let batch = vec![message(1, "old"), message(2, "new"), message(0, "anon"), message(2, "dup")];
    let shown = take_new_messages(&mut seen, batch.clone());
    let texts: Vec<&str> = shown.iter().map(|m| m.text.as_str()).collect();
    assert_eq!(texts, vec!["new", "anon"]);
    let again = take_new_messages(&mut seen, batch);
    let texts: Vec<&str> = again.iter().map(|m| m.text.as_str()).collect();
    assert_eq!(texts, vec!["anon"]);
    let expected: HashSet<u64> = [1, 2].into_iter().collect();
    assert_eq!(seen, expected);
}

#[test]
fn shell_steps() {
    assert!(matches!(shell_step(parse_shell_command("  "), None), Ok(ShellAction::Nothing)));
    assert!(matches!(shell_step(parse_shell_command("/exit"), None), Ok(ShellAction::Quit)));
    assert!(matches!(shell_step(parse_shell_command("hi"), None), Err(ShellError::NoCookie)));
    match shell_step(parse_shell_command(" hi there "), Some("a=1")) {
        Ok(ShellAction::Send(text, cookie)) => {
            assert_eq!(text, "hi there");
            assert_eq!(cookie, "a=1");
        }
        other => panic!("unexpected {other:?}"),
    }
    match shell_step(parse_shell_command("/cookie B=2; path=/"), Some("a=1; b=0")) {
        Ok(ShellAction::SaveCookie(c)) => assert_eq!(c, "a=1; b=2"),
        other => panic!("unexpected {other:?}"),
    }
    assert!(matches!(
        shell_step(parse_shell_command("/cookie path=/"), Some("a=1")),
        Ok(ShellAction::CookieEmpty)
    ));
    match shell_step(parse_shell_command("/show-cookie"), Some("abcdefghijklmnopq")) {
        Ok(ShellAction::ShowCookie(Some(m))) => assert_eq!(m, "abcdefgh...jklmnopq"),
        other => panic!("unexpected {other:?}"),
    }
    assert!(matches!(shell_step(parse_shell_command("/show-cookie"), None), Ok(ShellAction::ShowCookie(None))));
    match shell_step(parse_shell_command("/cookie-file  ./c.txt "), None) {
        Ok(ShellAction::ReadCookieFile(p)) => assert_eq!(p, "./c.txt"),
        other => panic!("unexpected {other:?}"),
    }
    assert_eq!(cookie_file_step("x=1\n", Some("y=2")).unwrap(), "y=2; x=1");
    assert!(matches!(cookie_file_step("\n", None), Err(ShellError::CookieFileEmpty)));
}
