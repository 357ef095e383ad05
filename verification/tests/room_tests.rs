use r15_shell::room::{request_header_values, HeaderError};
use r15_shell::config::Args;
use r15_shell::room::{cookie_header_value, human_verification_required, ChatRoom};

fn args(cookie_file: Option<&str>) -> Args {
    Args {
        room_id: 15,
        poll_seconds: 5,
        transcript_limit: 40,
        cookie_file: cookie_file.map(|s| s.to_string()),
        chat_url: "https://chat.stackoverflow.com".to_string(),
        site_url: "https://stackoverflow.com".to_string(),
    }
}

#[test]
fn room_urls() {
    let room = ChatRoom::new("https://chat.stackoverflow.com//", 15);
    assert_eq!(room.base_url, "https://chat.stackoverflow.com");
    assert_eq!(room.transcript_url(), "https://chat.stackoverflow.com/transcript/15");
    assert_eq!(room.room_url(), "https://chat.stackoverflow.com/rooms/15");
    assert_eq!(room.new_message_url(), "https://chat.stackoverflow.com/chats/15/messages/new");
    assert_eq!(room.set_pref_url(), "https://chat.stackoverflow.com/users/set-pref/53");
    assert_eq!(room.guidelines_url(), "https://chat.stackoverflow.com/rooms/set-has-seen-guidelines");
    assert_eq!(room.room_id_text(), "15");
    assert_eq!(ChatRoom::new("http://x", 0).room_url(), "http://x/rooms/0");
    assert_eq!(ChatRoom::new("/", 18446744073709551615).room_id_text(), "18446744073709551615");
}

#[test]
fn cookie_headers() {
    assert_eq!(cookie_header_value(None), None);
    assert_eq!(cookie_header_value(Some("  \t")), None);
    assert_eq!(cookie_header_value(Some(" a=1 ")), Some(" a=1 ".to_string()));
}

#[test]
fn human_checks() {
    assert!(human_verification_required(Some("required")));
    assert!(!human_verification_required(Some("Required")));
    assert!(!human_verification_required(None));
}

#[test]
fn cookie_file_paths() {
    assert_eq!(args(Some("./my.txt")).cookie_file_path_in(Some("/cfg".to_string())), "./my.txt");
    let p = args(None).cookie_file_path_in(Some("/home/u/.config/r15-shell".to_string()));
    assert_eq!(p, "/home/u/.config/r15-shell/cookie_header.txt");
    assert_eq!(args(None).cookie_file_path_in(None), ".r15-shell/cookie_header.txt");
    assert!(args(None).cookie_file_path().ends_with("cookie_header.txt"));
    assert_eq!(args(Some("x")).cookie_file_path(), "x");
}

#[test]
fn request_header_values_are_checked() {
    let ok = request_header_values(Some("a=1; b=\u{e9}"), Some("https://x/rooms/1")).unwrap();
    assert_eq!(ok.0.as_deref(), Some("a=1; b=\u{e9}"));
    assert_eq!(ok.1.as_deref(), Some("https://x/rooms/1"));
    let blank = request_header_values(Some("   "), None).unwrap();
    assert_eq!(blank, (None, None));
    assert!(matches!(
        request_header_values(Some("a=1\n"), None),
        Err(HeaderError::InvalidCookie)
    ));
    assert!(matches!(
        request_header_values(Some("a=1"), Some("x\u{7f}")),
        Err(HeaderError::InvalidReferer)
    ));
}

#[test]
fn default_cookie_path_ends_with_the_file_name() {
    let path = args(None).cookie_file_path();
    assert!(path.ends_with("cookie_header.txt"));
    assert!(path.len() > "cookie_header.txt".len());
}
