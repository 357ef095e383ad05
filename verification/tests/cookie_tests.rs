use r15_shell::cookie::{
    is_cookie_attribute, mask_cookie, normalize_cookie_input, parse_cookie_pairs,
    strip_cookie_prefix,
};
use r15_shell::text::normalize_message_text;

fn pairs(list: &[(&str, &str)]) -> Vec<(String, String)> {
    list.iter().map(|(n, v)| (n.to_string(), v.to_string())).collect()
}

#[test]
fn cookie_header_text_is_kept() {
    let out = normalize_cookie_input("cf_clearance=abc; chatusr=def; __cf_bm=ghi", None);
    assert_eq!(out, "cf_clearance=abc; chatusr=def; __cf_bm=ghi");
}

#[test]
fn set_cookie_attributes_are_ignored() {
    let out = normalize_cookie_input(
        "chatusr=t=abc&p=[53|True]; expires=Sun, 27 Sep 2026 13:42:34 GMT; path=/; secure; httponly",
        None,
    );
    assert_eq!(out, "chatusr=t=abc&p=[53|True]");
}

#[test]
fn cookie_prefixes_are_accepted() {
    assert_eq!(normalize_cookie_input("Cookie: a=1; b=2", None), "a=1; b=2");
    assert_eq!(normalize_cookie_input("cookie:a=1", None), "a=1");
    assert_eq!(normalize_cookie_input("Set-Cookie: sid=xyz; Path=/; HttpOnly", None), "sid=xyz");
    assert_eq!(normalize_cookie_input("set-cookie:  sid=xyz", None), "sid=xyz");
}

#[test]
fn pasted_cookies_merge_into_existing() {
    let out = normalize_cookie_input("B=3; c=4", Some("a=1; b=2"));
    assert_eq!(out, "a=1; b=3; c=4");
}

#[test]
fn merging_keeps_unnamed_cookies_and_order() {
    let out = normalize_cookie_input("z=9", Some("x=1; y=2"));
    assert_eq!(out, "x=1; y=2; z=9");
}

#[test]
fn input_without_cookies_gives_empty_text() {
    assert_eq!(normalize_cookie_input("expires=Sun; path=/; secure", Some("a=1")), "");
    assert_eq!(normalize_cookie_input("   ", None), "");
    assert_eq!(normalize_cookie_input("novalue=", None), "");
}

#[test]
fn first_cookie_of_a_name_wins_within_one_input() {
    assert_eq!(normalize_cookie_input("a=1; A=2", None), "a=1");
}

#[test]
fn cookies_on_several_lines_are_read() {
    let out = normalize_cookie_input("a=1\r\nCookie: b=2\n\n  c = 3  \n", None);
    assert_eq!(out, "a=1; b=2; c=3");
}

#[test]
fn parse_pairs_skips_bad_segments() {
    assert_eq!(
        parse_cookie_pairs("a=; b=2; novalue; =x; Max-Age=5"),
        pairs(&[("b", "2"), ("", "x")])
    );
}

#[test]
fn parse_pairs_of_empty_text() {
    assert_eq!(parse_cookie_pairs(""), pairs(&[]));
}

#[test]
fn values_may_hold_equals_signs() {
    assert_eq!(parse_cookie_pairs("k=a=b=c"), pairs(&[("k", "a=b=c")]));
}

#[test]
fn strip_prefix_variants() {
    assert_eq!(strip_cookie_prefix("  Cookie:  a=1 "), "a=1");
    assert_eq!(strip_cookie_prefix("Set-Cookie:x"), "x");
    assert_eq!(strip_cookie_prefix("COOKIE: a"), "COOKIE: a");
    assert_eq!(strip_cookie_prefix("   "), "");
}

#[test]
fn attribute_names() {
    for name in ["expires", "max-age", "domain", "path", "secure", "httponly", "samesite", "priority", "partitioned"] {
        assert!(is_cookie_attribute(name));
    }
    assert!(!is_cookie_attribute("Expires"));
    assert!(!is_cookie_attribute("chatusr"));
}

#[test]
fn mask_short_and_long_cookies() {
    assert_eq!(mask_cookie("short"), "<set>");
    assert_eq!(mask_cookie("  0123456789abcdef  "), "<set>");
    assert_eq!(mask_cookie("abcdefghijklmnopq"), "abcdefgh...jklmnopq");
    assert_eq!(mask_cookie("  chatusr=t=0123456789&p=xyz "), "chatusr=...89&p=xyz");
}

#[test]
fn normalize_message_text_collapses_whitespace() {
    assert_eq!(normalize_message_text("  a \n b\t\tc  "), "a b c");
    assert_eq!(normalize_message_text(""), "");
    assert_eq!(normalize_message_text(" \u{3000} "), "");
    assert_eq!(normalize_message_text("x\u{a0}y"), "x y");
}

#[test]
fn saved_cookie_reloads_unchanged() {
    let saved = normalize_cookie_input("Set-Cookie: sid=a b=c; Path=/", Some("x=1; SID=old"));
    assert_eq!(saved, "x=1; SID=a b=c");
    let reloaded = normalize_cookie_input(&format!("{saved}\n"), None);
    assert_eq!(reloaded, saved);
}

#[test]
fn saved_cookie_named_like_a_prefix_does_not_reload() {
    let saved = normalize_cookie_input("Cookie: Cookie:x=1", None);
    assert_eq!(saved, "Cookie:x=1");
    assert_eq!(normalize_cookie_input(&format!("{saved}\n"), None), "x=1");
}

#[test]
fn pasting_the_same_cookie_twice_changes_nothing() {
    let pasted = "Set-Cookie: b=3; Path=/\nc=4";
    let first = normalize_cookie_input(pasted, Some("a=1; B=2"));
    assert_eq!(first, "a=1; B=3; c=4");
    assert_eq!(normalize_cookie_input(pasted, Some(&first)), first);
}
