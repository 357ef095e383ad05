use r15_shell::number::{parse_i32, parse_u32, parse_u64};
use r15_shell::transcript::{
    extract_transcript_text, messages_from_page, normalize_timestamp, timestamp_on, parse_fkey,
    parse_message_id, parse_monologue_user_id, parse_transcript_day, parse_transcript_html,
    text_of, MessageBlock, Monologue, TranscriptPage,
};

const PAGE: &str = r#"<html><head><title>Lounge - 2024-03-05 (page 1 of 2)</title></head><body>
<div class="monologue user-1234">
  <div class="signature"><div class="username"><a href="/users/1234">Alice   Smith</a></div></div>
  <div class="messages">
    <div class="timestamp">10:15</div>
    <div class="message" id="message-555"><div class="content">Hello   world</div></div>
    <div class="message" id="message-556"><div class="content"><span>5 minutes ago</span> second</div></div>
    <div class="message" data-messageid="557"><div class="timestamp">10:20:30</div><div class="content">third</div></div>
    <div class="message"><div class="content">   </div></div>
    <div class="message"><div class="content">fourth <a href="/transcript/message/558#558">link</a></div></div>
  </div>
</div>
<div class="monologue">
  <div class="messages">
    <div class="message" id="message-600"><div class="username">Bob</div><div class="content">from bob</div></div>
  </div>
</div>
</body></html>"#;

fn texts(list: &[&str]) -> Vec<String> {
    list.iter().map(|s| s.to_string()).collect()
}

fn block() -> MessageBlock {
    MessageBlock {
        content: None,
        user_link: None,
        user_name: None,
        timestamp: None,
        id_attr: None,
        data_message_id: None,
        message_link: None,
    }
}

#[test]
fn transcript_page_is_read() {
    let messages = parse_transcript_html(PAGE, 40);
    let got: Vec<(u64, u64, &str, &str, &str)> = messages
        .iter()
        .map(|m| (m.message_id, m.user_id, m.user_name.as_str(), m.text.as_str(), m.timestamp.as_str()))
        .collect();
    assert_eq!(got.len(), 5);
    assert_eq!(got[0], (555, 1234, "Alice Smith", "Hello world", "2024-03-05T10:15:00+00:00"));
    assert_eq!(got[1], (556, 1234, "Alice Smith", "second", "2024-03-05T10:15:00+00:00"));
    assert_eq!(got[2], (557, 1234, "Alice Smith", "third", "2024-03-05T10:20:30+00:00"));
    assert_eq!(got[3], (558, 1234, "Alice Smith", "fourth link", "2024-03-05T10:15:00+00:00"));
    assert_eq!(got[4].0, 600);
    assert_eq!(got[4].1, 0);
    assert_eq!(got[4].2, "Bob");
    assert_eq!(got[4].3, "from bob");
}

#[test]
fn transcript_limit_keeps_the_last_messages() {
    let messages = parse_transcript_html(PAGE, 2);
    let ids: Vec<u64> = messages.iter().map(|m| m.message_id).collect();
    assert_eq!(ids, vec![558, 600]);
    assert!(parse_transcript_html(PAGE, 0).is_empty());
}

#[test]
fn page_without_messages() {
    assert!(parse_transcript_html("<html><body><p>nothing</p></body></html>", 10).is_empty());
    assert!(parse_transcript_html("", 10).is_empty());
}

#[test]
fn fkey_is_found() {
    let html = r#"<html><body><form><input id="fkey" name="fkey" type="hidden" value="abc123"></form></body></html>"#;
    assert_eq!(parse_fkey(html), Some("abc123".to_string()));
    assert_eq!(parse_fkey("<html><body></body></html>"), None);
}

#[test]
fn messages_from_plain_page() {
    let mut first = block();
    first.content = Some(texts(&["  ", "2 hours ago", "  hi ", "there"]));
    first.user_link = Some(texts(&["Carol"]));
    first.timestamp = Some(texts(&[" 08:01 "]));
    first.data_message_id = Some("m-77".to_string());
    let mut second = block();
    second.content = Some(texts(&["x"]));
    let mut skipped = block();
    skipped.content = Some(texts(&["1 day ago"]));
    let page = TranscriptPage {
        title: Some(texts(&["Room 2023-12-31"])),
        monologues: vec![Monologue {
            classes: texts(&["monologue", "user-abc", "user-9"]),
            signature_link: None,
            signature_name: Some(texts(&[" Dave "])),
            timestamp: None,
            messages: vec![first, skipped, second],
        }],
    };
    let messages = messages_from_page(&page, 10);
    assert_eq!(messages.len(), 2);
    assert_eq!(messages[0].message_id, 77);
    assert_eq!(messages[0].user_id, 9);
    assert_eq!(messages[0].user_name, "Carol");
    assert_eq!(messages[0].text, "hi there");
    assert_eq!(messages[0].timestamp, "2023-12-31T08:01:00+00:00");
    assert_eq!(messages[1].message_id, 0);
    assert_eq!(messages[1].user_name, "Dave");
    assert_eq!(messages[1].text, "x");
}

#[test]
fn message_ids() {
    let mut b = block();
    assert_eq!(parse_message_id(&b), 0);
    b.message_link = Some("/transcript/message/42#42".to_string());
    assert_eq!(parse_message_id(&b), 42);
    b.data_message_id = Some("99999999999999999999".to_string());
    assert_eq!(parse_message_id(&b), 42);
    b.id_attr = Some("message-12abc".to_string());
    assert_eq!(parse_message_id(&b), 12);
}

#[test]
fn user_ids() {
    assert_eq!(parse_monologue_user_id(&texts(&["monologue", "user-42", "user-7"])), 42);
    assert_eq!(parse_monologue_user_id(&texts(&["monologue"])), 0);
    assert_eq!(parse_monologue_user_id(&[]), 0);
}

#[test]
fn transcript_days() {
    assert_eq!(parse_transcript_day(&Some(texts(&["Lounge - 2024-02-29"]))), Some((2024, 2, 29)));
    assert_eq!(parse_transcript_day(&Some(texts(&["Lounge - 2023-02-29"]))), None);
    assert_eq!(parse_transcript_day(&Some(texts(&["no date"]))), None);
    assert_eq!(parse_transcript_day(&None), None);
}

#[test]
fn timestamps() {
    assert_eq!(normalize_timestamp(" 10:15 ", Some((2024, 3, 5))), "2024-03-05T10:15:00+00:00");
    assert_eq!(normalize_timestamp("23:59:59", Some((1999, 12, 31))), "1999-12-31T23:59:59+00:00");
    let now = normalize_timestamp("yesterday", Some((2024, 3, 5)));
    assert!(now.ends_with("+00:00"));
    let today = normalize_timestamp("07:30", None);
    assert!(today.ends_with("T07:30:00+00:00"));
}

#[test]
fn element_texts() {
    assert_eq!(text_of(&texts(&[" a ", "b\n", " c"])), "a b c");
    assert_eq!(text_of(&[]), "");
    assert_eq!(extract_transcript_text(&texts(&["3 hours ago", " hi  there "])), "hi there");
    assert_eq!(extract_transcript_text(&texts(&["hi", "3 hours ago"])), "hi 3 hours ago");
    assert_eq!(extract_transcript_text(&texts(&["1 second ago"])), "");
}

#[test]
fn numbers() {
    assert_eq!(parse_u64("+12"), Some(12));
    assert_eq!(parse_u64(""), None);
    assert_eq!(parse_u64("+"), None);
    assert_eq!(parse_u64("-1"), None);
    assert_eq!(parse_u64("18446744073709551615"), Some(u64::MAX));
    assert_eq!(parse_u64("18446744073709551616"), None);
    assert_eq!(parse_u32("4294967296"), None);
    assert_eq!(parse_u32("007"), Some(7));
    assert_eq!(parse_i32("-2147483648"), Some(i32::MIN));
    assert_eq!(parse_i32("-2147483649"), None);
    assert_eq!(parse_i32("2147483647"), Some(i32::MAX));
    assert_eq!(parse_i32("12a"), None);
}

#[test]
fn timestamps_on_a_given_day() {
    let now = "2030-01-01T00:00:00+00:00".to_string();
    assert_eq!(timestamp_on("\t08:05 ", (2024, 2, 29), now.clone()), "2024-02-29T08:05:00+00:00");
    assert_eq!(timestamp_on("08:05:09", (2024, 2, 29), now.clone()), "2024-02-29T08:05:09+00:00");
    assert_eq!(timestamp_on("   ", (2024, 2, 29), now.clone()), now);
    assert_eq!(timestamp_on("noon", (2024, 2, 29), now.clone()), now);
    assert_eq!(timestamp_on("25:00", (2024, 2, 29), now.clone()), now);
}

#[test]
fn single_message_page_is_read() {
    let html = "<title>2024-01-02</title><div class='monologue user-42'><div class='signature'><div class='username'>alice</div></div><div class='messages'><div class='timestamp'>12:34</div><div class='message' id='message-123'><div class='content'>hello   world</div></div></div></div>";
    let result = parse_transcript_html(html, 40);
    assert_eq!(result.len(), 1);
    assert_eq!(result[0].message_id, 123);
    assert_eq!(result[0].user_id, 42);
    assert_eq!(result[0].user_name, "alice");
    assert_eq!(result[0].text, "hello world");
    assert_eq!(result[0].timestamp, "2024-01-02T12:34:00+00:00");
}

#[test]
fn last_messages_are_kept() {
    let html = "<div class='monologue user-7'><div class='message' id='m-1'><div class='content'>a</div></div><div class='message' id='m-2'><div class='content'>b</div></div><div class='message' id='m-3'><div class='content'>c</div></div></div>";
    let result = parse_transcript_html(html, 2);
    assert_eq!(result.len(), 2);
    assert_eq!((result[0].message_id, result[0].text.as_str()), (2, "b"));
    assert_eq!((result[1].message_id, result[1].text.as_str()), (3, "c"));
    for m in &result {
        assert_eq!(m.user_id, 7);
        assert_eq!(m.user_name, "unknown");
    }
    let all = parse_transcript_html(html, usize::MAX);
    assert_eq!(all.len(), 3);
    assert_eq!(all[1].message_id, result[0].message_id);
    assert_eq!(all[2].text, result[1].text);
    assert!(parse_transcript_html(html, 0).is_empty());
}

#[test]
fn timestamps_without_a_time_have_rfc3339_form() {
    let html = "<div class='monologue user-7'><div class='message' id='m-1'><div class='content'>a</div></div></div>";
    let result = parse_transcript_html(html, 5);
    assert_eq!(result.len(), 1);
    let ts = result[0].timestamp.as_bytes();
    assert!(ts.len() >= 25);
    assert_eq!(ts[4], b'-');
    assert_eq!(ts[10], b'T');
    assert!(result[0].timestamp.ends_with("+00:00"));
}
