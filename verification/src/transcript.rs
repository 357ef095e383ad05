//! Reading chat messages out of a room transcript page.
//!
//! The page is first read into plain values ([`TranscriptPage`]): for each
//! `.monologue` element and each `.message` element in it, in the order
//! `scraper` returns them, the texts and attributes that the reader looks
//! at. The messages are then computed from
//! those values by verified code.

use vstd::prelude::*;

use crate::chat::ChatMessage;
use crate::dom::{
    attribute, class_names, css_selector_accepted, parse_document, parse_selector,
    scraper_attribute, scraper_class_names, scraper_match_count, scraper_text_nodes,
    select_in_document, select_in_element, string_views, text_nodes, Css, DomElement,
};
use crate::clock::{
    chrono_time, is_utc_stamp, rfc3339_text, date_exists, now_rfc3339, parse_time, rfc3339_utc, today_utc,
    valid_date, valid_time,
};
use crate::number::{parse_i32, parse_u32, parse_u64, parsed_i32, parsed_u32, parsed_u64};
use crate::pattern::{capture_group, is_match, opt_view, regex_group, regex_is_match};
use crate::text::{
    chars_of, collapse_chars, collapse_ws, copy_range, join, string_from_chars, trim, trim_chars,
};

verus! {

/// A leading "N units ago" text node of a message's content.
pub const AGO_PATTERN: &'static str = r"^\d+\s+(seconds?|minutes?|hours?|days?)\s+ago$";

/// The first run of digits of an attribute value.
pub const DIGITS_PATTERN: &'static str = r"(\d+)";

/// The message id in a transcript link.
pub const MESSAGE_LINK_PATTERN: &'static str = r"/transcript/message/(\d+)";

/// The user id in a monologue class name.
pub const USER_CLASS_PATTERN: &'static str = r"user-(\d+)";

/// The date in a transcript page title.
pub const DAY_PATTERN: &'static str = r"(\d{4})-(\d{2})-(\d{2})";

/// What the reader takes from one `.message` element: text nodes of the first
/// matching descendant for each selector, and attribute values.
pub struct MessageBlock {
    /// The text nodes of the first `.content` element.
    pub content: Option<Vec<String>>,
    /// The text nodes of the first `.username a` element.
    pub user_link: Option<Vec<String>>,
    /// The text nodes of the first `.username` element.
    pub user_name: Option<Vec<String>>,
    /// The text nodes of the first `.timestamp, .times` element.
    pub timestamp: Option<Vec<String>>,
    /// The `id` attribute.
    pub id_attr: Option<String>,
    /// The `data-messageid` attribute.
    pub data_message_id: Option<String>,
    /// The `href` of the first `a[href*='/transcript/message/']` element.
    pub message_link: Option<String>,
}

/// What the reader takes from one `.monologue` element.
pub struct Monologue {
    /// The class names of the element.
    pub classes: Vec<String>,
    /// The text nodes of the first `.signature .username a` element.
    pub signature_link: Option<Vec<String>>,
    /// The text nodes of the first `.signature .username` element.
    pub signature_name: Option<Vec<String>>,
    /// The text nodes of the first `.messages > .timestamp` element.
    pub timestamp: Option<Vec<String>>,
    /// The `.message` elements, in the order `scraper` returns them.
    pub messages: Vec<MessageBlock>,
}

/// What the reader takes from a transcript page.
pub struct TranscriptPage {
    /// The text nodes of the first `title` element.
    pub title: Option<Vec<String>>,
    /// The `.monologue` elements, in the order `scraper` returns them.
    pub monologues: Vec<Monologue>,
}

/// The views of a sequence of strings.
pub open spec fn strings(v: Seq<String>) -> Seq<Seq<char>> {
    v.map_values(|s: String| s@)
}

/// The views of optional text nodes.
pub open spec fn opt_strings(o: Option<Vec<String>>) -> Option<Seq<Seq<char>>> {
    match o {
        Some(v) => Some(strings(v@)),
        None => None,
    }
}

/// What a [`MessageBlock`] holds, as plain values.
pub struct BlockView {
    pub content: Option<Seq<Seq<char>>>,
    pub user_link: Option<Seq<Seq<char>>>,
    pub user_name: Option<Seq<Seq<char>>>,
    pub timestamp: Option<Seq<Seq<char>>>,
    pub id_attr: Option<Seq<char>>,
    pub data_message_id: Option<Seq<char>>,
    pub message_link: Option<Seq<char>>,
}

impl View for MessageBlock {
    type V = BlockView;

    open spec fn view(&self) -> BlockView {
        BlockView {
            content: opt_strings(self.content),
            user_link: opt_strings(self.user_link),
            user_name: opt_strings(self.user_name),
            timestamp: opt_strings(self.timestamp),
            id_attr: opt_view(self.id_attr),
            data_message_id: opt_view(self.data_message_id),
            message_link: opt_view(self.message_link),
        }
    }
}

/// What a [`Monologue`] holds, as plain values.
pub struct MonologueView {
    pub classes: Seq<Seq<char>>,
    pub signature_link: Option<Seq<Seq<char>>>,
    pub signature_name: Option<Seq<Seq<char>>>,
    pub timestamp: Option<Seq<Seq<char>>>,
    pub messages: Seq<BlockView>,
}

impl View for Monologue {
    type V = MonologueView;

    open spec fn view(&self) -> MonologueView {
        MonologueView {
            classes: strings(self.classes@),
            signature_link: opt_strings(self.signature_link),
            signature_name: opt_strings(self.signature_name),
            timestamp: opt_strings(self.timestamp),
            messages: self.messages@.map_values(|b: MessageBlock| b@),
        }
    }
}

/// What a [`TranscriptPage`] holds, as plain values.
pub struct PageView {
    pub title: Option<Seq<Seq<char>>>,
    pub monologues: Seq<MonologueView>,
}

impl View for TranscriptPage {
    type V = PageView;

    open spec fn view(&self) -> PageView {
        PageView {
            title: opt_strings(self.title),
            monologues: self.monologues@.map_values(|m: Monologue| m@),
        }
    }
}

/// The text of an element: its text nodes joined by spaces, whitespace
/// collapsed.
pub open spec fn element_text(pieces: Seq<Seq<char>>) -> Seq<char> {
    collapse_ws(join(pieces, seq![' ']))
}

/// The text nodes trimmed, the empty ones left out.
pub open spec fn kept_pieces(pieces: Seq<Seq<char>>) -> Seq<Seq<char>>
    decreases pieces.len(),
{
    if pieces.len() == 0 {
        Seq::empty()
    } else {
        let init = kept_pieces(pieces.drop_last());
        let t = trim(pieces.last());
        if t.len() == 0 {
            init
        } else {
            init.push(t)
        }
    }
}

/// The text of a message's content: its trimmed, non-empty text nodes,
/// without a first one that reads "N units ago", joined by spaces with
/// whitespace collapsed.
pub open spec fn content_text(pieces: Seq<Seq<char>>) -> Seq<char> {
    let kept = kept_pieces(pieces);
    let body = if kept.len() > 0 && regex_is_match(AGO_PATTERN@, kept[0]) {
        kept.drop_first()
    } else {
        kept
    };
    collapse_ws(join(body, seq![' ']))
}

/// The number in group 1 of `pattern` in `raw`, if there is a value, the
/// pattern matches and the group reads as a `u64`.
pub open spec fn id_in(raw: Option<Seq<char>>, pattern: Seq<char>) -> Option<u64> {
    match raw {
        None => None,
        Some(r) => match regex_group(pattern, r, 1) {
            None => None,
            Some(m) => parsed_u64(m),
        },
    }
}

/// A message's id: from its `id` attribute, else its `data-messageid`
/// attribute, else its transcript link, else 0.
pub open spec fn message_id_spec(b: BlockView) -> u64 {
    match id_in(b.id_attr, DIGITS_PATTERN@) {
        Some(x) => x,
        None => match id_in(b.data_message_id, DIGITS_PATTERN@) {
            Some(x) => x,
            None => match id_in(b.message_link, MESSAGE_LINK_PATTERN@) {
                Some(x) => x,
                None => 0,
            },
        },
    }
}

/// The user id of the first class name of the form `user-N`, else 0.
pub open spec fn user_id_in(classes: Seq<Seq<char>>) -> u64
    decreases classes.len(),
{
    if classes.len() == 0 {
        0
    } else {
        match id_in(Some(classes[0]), USER_CLASS_PATTERN@) {
            Some(x) => x,
            None => user_id_in(classes.drop_first()),
        }
    }
}

/// The text of the first present element, else `fallback`.
pub open spec fn first_text(
    a: Option<Seq<Seq<char>>>,
    b: Option<Seq<Seq<char>>>,
    fallback: Seq<char>,
) -> Seq<char> {
    match a {
        Some(p) => element_text(p),
        None => match b {
            Some(p) => element_text(p),
            None => fallback,
        },
    }
}

/// The author shown for a monologue.
pub open spec fn monologue_user(m: MonologueView) -> Seq<char> {
    first_text(m.signature_link, m.signature_name, "unknown"@)
}

/// The timestamp text found for a message: its own, else its monologue's,
/// else empty.
pub open spec fn raw_timestamp(m: MonologueView, b: BlockView) -> Seq<char> {
    first_text(b.timestamp, m.timestamp, Seq::empty())
}

/// The fields of a message: id, user id, user name, text, and the timestamp
/// text as found on the page.
pub type MessageFields = (u64, u64, Seq<char>, Seq<char>, Seq<char>);

/// The message that a `.message` element gives, if any: none without a
/// `.content` element or with an empty content text.
pub open spec fn block_fields(m: MonologueView, b: BlockView) -> Option<MessageFields> {
    match b.content {
        None => None,
        Some(c) => {
            let text = content_text(c);
            if text.len() == 0 {
                None
            } else {
                Some(
                    (
                        message_id_spec(b),
                        user_id_in(m.classes),
                        first_text(
                            b.user_link,
                            b.user_name,
                            monologue_user(m),
                        ),
                        text,
                        raw_timestamp(m, b),
                    ),
                )
            }
        },
    }
}

/// The messages of the first blocks of a monologue.
pub open spec fn blocks_fields(m: MonologueView, blocks: Seq<BlockView>) -> Seq<MessageFields>
    decreases blocks.len(),
{
    if blocks.len() == 0 {
        Seq::empty()
    } else {
        let init = blocks_fields(m, blocks.drop_last());
        match block_fields(m, blocks.last()) {
            Some(f) => init.push(f),
            None => init,
        }
    }
}

/// The messages of a sequence of monologues, in order.
pub open spec fn monologues_fields(ms: Seq<MonologueView>) -> Seq<MessageFields>
    decreases ms.len(),
{
    if ms.len() == 0 {
        Seq::empty()
    } else {
        monologues_fields(ms.drop_last()) + blocks_fields(ms.last(), ms.last().messages)
    }
}

/// The last `n` elements of `s` (all of them when there are at most `n`).
pub open spec fn last_n<A>(s: Seq<A>, n: nat) -> Seq<A> {
    if s.len() > n {
        s.skip(s.len() - n)
    } else {
        s
    }
}

/// The date of a transcript page: the first `YYYY-MM-DD` in its title text,
/// when the numbers read and form a date.
pub open spec fn transcript_day(title: Option<Seq<Seq<char>>>) -> Option<(i32, u32, u32)> {
    match title {
        None => None,
        Some(p) => {
            let t = element_text(p);
            match (regex_group(DAY_PATTERN@, t, 1), regex_group(DAY_PATTERN@, t, 2), regex_group(
                DAY_PATTERN@,
                t,
                3,
            )) {
                (Some(ys), Some(ms), Some(ds)) => match (
                    parsed_i32(ys),
                    parsed_u32(ms),
                    parsed_u32(ds),
                ) {
                    (Some(y), Some(mo), Some(d)) => if valid_date(y, mo, d) {
                        Some((y, mo, d))
                    } else {
                        None
                    },
                    _ => None,
                },
                _ => None,
            }
        },
    }
}

/// The time of day in a text: as `%H:%M`, else as `%H:%M:%S`.
pub open spec fn clock_time(text: Seq<char>) -> Option<(u32, u32, u32, u32)> {
    match chrono_time(text, "%H:%M"@) {
        Some(t) => Some(t),
        None => chrono_time(text, "%H:%M:%S"@),
    }
}

/// What the timestamp of a message is: always the RFC 3339 text of a UTC
/// date and time; for a (trimmed) time of day, that time on the
/// transcript's day (on some day, today's, when the page has none);
/// otherwise the current time, of which only its form is stated.
pub open spec fn stamp_ok(raw: Seq<char>, day: Option<(i32, u32, u32)>, stamp: Seq<char>) -> bool {
    let t = trim(raw);
    &&& is_utc_stamp(stamp)
    &&& match clock_time(t) {
        Some(tm) => t.len() > 0 ==> match day {
            Some(d) => stamp == rfc3339_text(d.0, d.1, d.2, tm.0, tm.1, tm.2, tm.3),
            None => exists|y: i32, mo: u32, dd: u32|
                valid_date(y, mo, dd) && stamp == rfc3339_text(y, mo, dd, tm.0, tm.1, tm.2, tm.3),
        },
        None => true,
    }
}

/// Whether `res` are the messages of `page`, the last `limit` of them.
pub open spec fn page_messages_ok(page: PageView, limit: usize, res: Seq<ChatMessage>) -> bool {
    let day = transcript_day(page.title);
    let f = last_n(monologues_fields(page.monologues), limit as nat);
    &&& res.len() == f.len()
    &&& forall|i: int|
        0 <= i < res.len() ==> {
            &&& (#[trigger] res[i]).message_id == f[i].0
            &&& res[i].user_id == f[i].1
            &&& res[i].user_name@ == f[i].2
            &&& res[i].text@ == f[i].3
            &&& stamp_ok(f[i].4, day, res[i].timestamp@)
        }
}

/// The text nodes joined by single spaces.
fn join_pieces(pieces: &[String]) -> (res: Vec<char>)
    ensures
        res@ == join(strings(pieces@), seq![' ']),
{
    let ghost sv = strings(pieces@);
    let mut out: Vec<char> = Vec::new();
    let n = pieces.len();
    let mut i: usize = 0;
    assert(sv.take(0) =~= Seq::<Seq<char>>::empty());
    while i < n
        invariant
            i <= n == pieces@.len(),
            sv == strings(pieces@),
            out@ == join(sv.take(i as int), seq![' ']),
        decreases n - i,
    {
        let ghost prev = out@;
        if i > 0 {
            out.push(' ');
        }
        let piece = chars_of(pieces[i].as_str());
        let mut k: usize = 0;
        let ghost mid = out@;
        while k < piece.len()
            invariant
                k <= piece@.len(),
                out@ == mid + piece@.take(k as int),
            decreases piece@.len() - k,
        {
            out.push(piece[k]);
            k = k + 1;
            assert(out@ =~= mid + piece@.take(k as int));
        }
        proof {
            assert(piece@.take(piece@.len() as int) =~= piece@);
            assert(sv[i as int] == piece@);
            assert(sv.take(i + 1).drop_last() =~= sv.take(i as int));
            if i == 0 {
                assert(out@ =~= sv[0]);
            } else {
                assert(out@ =~= prev + seq![' '] + sv[i as int]);
            }
        }
        i = i + 1;
    }
    assert(sv.take(n as int) =~= sv);
    out
}

/// The text of an element from its text nodes (joined by spaces, whitespace
/// collapsed).
pub fn text_of(pieces: &[String]) -> (res: String)
    ensures
        res@ == element_text(strings(pieces@)),
{
    let joined = join_pieces(pieces);
    string_from_chars(&collapse_chars(&joined))
}

/// The text of a message's content from its text nodes: trimmed, empty
/// nodes and a leading "N units ago" node left out, joined by spaces,
/// whitespace collapsed.
pub fn extract_transcript_text(pieces: &[String]) -> (res: String)
    ensures
        res@ == content_text(strings(pieces@)),
{
    let ghost sv = strings(pieces@);
    let mut kept: Vec<String> = Vec::new();
    let n = pieces.len();
    let mut i: usize = 0;
    assert(sv.take(0) =~= Seq::<Seq<char>>::empty());
    while i < n
        invariant
            i <= n == pieces@.len(),
            sv == strings(pieces@),
            strings(kept@) == kept_pieces(sv.take(i as int)),
        decreases n - i,
    {
        assert(sv.take(i + 1).drop_last() =~= sv.take(i as int));
        assert(sv.take(i + 1).last() == pieces@[i as int]@);
        let t = trim_chars(&chars_of(pieces[i].as_str()));
        if t.len() > 0 {
            let ghost before = kept@;
            kept.push(string_from_chars(&t));
            assert(strings(kept@) =~= strings(before).push(t@));
        }
        i = i + 1;
    }
    assert(sv.take(n as int) =~= sv);
    let ghost kv = strings(kept@);
    let body: Vec<String> = if kept.len() > 0 && is_match(AGO_PATTERN, kept[0].as_str()) {
        let mut rest: Vec<String> = Vec::new();
        let mut j: usize = 1;
        let m = kept.len();
        while j < m
            invariant
                1 <= j <= m == kept@.len(),
                kv == strings(kept@),
                strings(rest@) =~= kv.subrange(1, j as int),
            decreases m - j,
        {
            let ghost before = rest@;
            rest.push(string_from_chars(&chars_of(kept[j].as_str())));
            assert(strings(rest@) =~= strings(before).push(kv[j as int]));
            j = j + 1;
        }
        assert(kv.subrange(1, m as int) =~= kv.drop_first());
        rest
    } else {
        kept
    };
    let joined = join_pieces(&body);
    string_from_chars(&collapse_chars(&joined))
}

/// The number in group 1 of `pattern` in `raw`.
fn id_in_exec(raw: &Option<String>, pattern: &str) -> (res: Option<u64>)
    ensures
        res == id_in(opt_view(*raw), pattern@),
{
    match raw {
        None => None,
        Some(r) => match capture_group(pattern, r.as_str(), 1) {
            None => None,
            Some(m) => parse_u64(m.as_str()),
        },
    }
}

/// A message's id: from its `id` attribute, else its `data-messageid`
/// attribute, else its transcript link; 0 when none gives one.
pub fn parse_message_id(block: &MessageBlock) -> (res: u64)
    ensures
        res == message_id_spec(block@),
{
    if let Some(id) = id_in_exec(&block.id_attr, DIGITS_PATTERN) {
        return id;
    }
    if let Some(id) = id_in_exec(&block.data_message_id, DIGITS_PATTERN) {
        return id;
    }
    if let Some(id) = id_in_exec(&block.message_link, MESSAGE_LINK_PATTERN) {
        return id;
    }
    0
}

/// The user id of a monologue: from its first class name of the form
/// `user-N`; 0 when none gives one.
pub fn parse_monologue_user_id(classes: &[String]) -> (res: u64)
    ensures
        res == user_id_in(strings(classes@)),
{
    let ghost sv = strings(classes@);
    let n = classes.len();
    let mut i: usize = 0;
    assert(sv.skip(0) =~= sv);
    while i < n
        invariant
            i <= n == classes@.len(),
            sv == strings(classes@),
            user_id_in(sv) == user_id_in(sv.skip(i as int)),
        decreases n - i,
    {
        let raw = Some(string_from_chars(&chars_of(classes[i].as_str())));
        assert(sv.skip(i as int)[0] == classes@[i as int]@);
        assert(sv.skip(i as int).drop_first() =~= sv.skip(i + 1));
        if let Some(id) = id_in_exec(&raw, USER_CLASS_PATTERN) {
            return id;
        }
        i = i + 1;
    }
    0
}

/// The date of a transcript page from its title's text nodes.
pub fn parse_transcript_day(title: &Option<Vec<String>>) -> (res: Option<(i32, u32, u32)>)
    ensures
        res == transcript_day(opt_strings(*title)),
        res matches Some(d) ==> valid_date(d.0, d.1, d.2),
{
    let pieces = match title {
        None => return None,
        Some(p) => p,
    };
    let t = text_of(pieces.as_slice());
    let ys = capture_group(DAY_PATTERN, t.as_str(), 1);
    let ms = capture_group(DAY_PATTERN, t.as_str(), 2);
    let ds = capture_group(DAY_PATTERN, t.as_str(), 3);
    match (ys, ms, ds) {
        (Some(ys), Some(ms), Some(ds)) => match (
            parse_i32(ys.as_str()),
            parse_u32(ms.as_str()),
            parse_u32(ds.as_str()),
        ) {
            (Some(y), Some(mo), Some(d)) => if date_exists(y, mo, d) {
                Some((y, mo, d))
            } else {
                None
            },
            _ => None,
        },
        _ => None,
    }
}

/// The time of day in a text, as `%H:%M` or else as `%H:%M:%S`.
fn time_of_day(text: &str) -> (res: Option<(u32, u32, u32, u32)>)
    ensures
        res == clock_time(text@),
        res matches Some(t) ==> valid_time(t.0, t.1, t.2, t.3),
{
    match parse_time(text, "%H:%M") {
        Some(t) => Some(t),
        None => parse_time(text, "%H:%M:%S"),
    }
}

/// The timestamp of a message from the time text found on the page, given
/// the day it is on and the current time: for a (trimmed) time of day, the
/// RFC 3339 text of that time on `day`; otherwise `now`.
pub open spec fn stamp_on(raw: Seq<char>, day: (i32, u32, u32), now: Seq<char>) -> Seq<char> {
    let t = trim(raw);
    if t.len() == 0 {
        now
    } else {
        match clock_time(t) {
            Some(tm) => rfc3339_text(day.0, day.1, day.2, tm.0, tm.1, tm.2, tm.3),
            None => now,
        }
    }
}

/// The RFC 3339 timestamp of a message from the time text found on the
/// page, on `day`, with `now` standing for the current time: that time of
/// day on `day`; `now` when the text is blank or holds no time.
pub fn timestamp_on(raw_time: &str, day: (i32, u32, u32), now: String) -> (res: String)
    requires
        valid_date(day.0, day.1, day.2),
    ensures
        res@ == stamp_on(raw_time@, day, now@),
        is_utc_stamp(now@) ==> is_utc_stamp(res@),
{
    let t = string_from_chars(&trim_chars(&chars_of(raw_time)));
    if t.as_str().is_empty() {
        return now;
    }
    match time_of_day(t.as_str()) {
        Some(tm) => {
            let res = rfc3339_utc(day.0, day.1, day.2, tm.0, tm.1, tm.2, tm.3);
            assert(is_utc_stamp(res@));
            res
        },
        None => now,
    }
}

/// The RFC 3339 timestamp of a message from the time text found on the
/// page: that time of day on the transcript's day (today's, when the page
/// has none); the current time when the text is blank or holds no time.
pub fn normalize_timestamp(raw_time: &str, transcript_day: Option<(i32, u32, u32)>) -> (res: String)
    requires
        transcript_day matches Some(d) ==> valid_date(d.0, d.1, d.2),
    ensures
        stamp_ok(raw_time@, transcript_day, res@),
        transcript_day matches Some(d) ==> exists|now: Seq<char>| res@ == stamp_on(raw_time@, d, now),
{
    let day = match transcript_day {
        Some(d) => d,
        None => today_utc(),
    };
    let now = now_rfc3339();
    let res = timestamp_on(raw_time, day, now);
    proof {
        let t = trim(raw_time@);
        if t.len() > 0 && clock_time(t) is Some && transcript_day is None {
            let tm = clock_time(t).unwrap();
            assert(valid_date(day.0, day.1, day.2) && res@ == rfc3339_text(
                day.0,
                day.1,
                day.2,
                tm.0,
                tm.1,
                tm.2,
                tm.3,
            ));
        }
    }
    res
}

/// Whether `msg` is the message with fields `f`, its timestamp as
/// `stamp_ok` states for the transcript day `day`.
pub open spec fn message_matches(msg: ChatMessage, f: MessageFields, day: Option<(i32, u32, u32)>) -> bool {
    &&& msg.message_id == f.0
    &&& msg.user_id == f.1
    &&& msg.user_name@ == f.2
    &&& msg.text@ == f.3
    &&& stamp_ok(f.4, day, msg.timestamp@)
}

/// The text of the first present element, else a copy of `fallback`.
fn first_text_of(a: &Option<Vec<String>>, b: &Option<Vec<String>>, fallback: &String) -> (res: String)
    ensures
        res@ == first_text(opt_strings(*a), opt_strings(*b), fallback@),
{
    match a {
        Some(p) => text_of(p.as_slice()),
        None => match b {
            Some(p) => text_of(p.as_slice()),
            None => fallback.clone(),
        },
    }
}

/// The chat messages of a transcript page, the last `limit` of them: for
/// each `.message` with a non-empty content text, in the page's order, its
/// id, its monologue's user id, its author (its own user name, else the
/// monologue's, else "unknown"), its text, and its timestamp.
pub fn messages_from_page(page: &TranscriptPage, limit: usize) -> (res: Vec<ChatMessage>)
    ensures
        page_messages_ok(page@, limit, res@),
{
    let day = parse_transcript_day(&page.title);
    let ghost ms = page@.monologues;
    let ghost mut fields: Seq<MessageFields> = Seq::empty();
    let mut messages: Vec<ChatMessage> = Vec::new();
    let unknown = "unknown".to_owned();
    let nm = page.monologues.len();
    let mut mi: usize = 0;
    assert(ms.take(0) =~= Seq::<MonologueView>::empty());
    while mi < nm
        invariant
            mi <= nm == ms.len(),
            ms == page@.monologues,
            day == transcript_day(page@.title),
            day matches Some(d) ==> valid_date(d.0, d.1, d.2),
            unknown@ == "unknown"@,
            fields == monologues_fields(ms.take(mi as int)),
            messages@.len() == fields.len(),
            forall|i: int|
                0 <= i < fields.len() ==> message_matches(#[trigger] messages@[i], fields[i], day),
        decreases nm - mi,
    {
        let m = &page.monologues[mi];
        assert(ms.take(mi + 1).drop_last() =~= ms.take(mi as int));
        assert(ms.take(mi + 1).last() == m@);
        let user_id = parse_monologue_user_id(m.classes.as_slice());
        let user_name = first_text_of(&m.signature_link, &m.signature_name, &unknown);
        let mono_ts: Option<String> = match &m.timestamp {
            Some(p) => Some(text_of(p.as_slice())),
            None => None,
        };
        let ghost base = fields;
        let ghost bs = m@.messages;
        let nb = m.messages.len();
        let mut bi: usize = 0;
        assert(bs.take(0) =~= Seq::<BlockView>::empty());
        assert(base + blocks_fields(m@, bs.take(0)) =~= base);
        while bi < nb
            invariant
                bi <= nb == bs.len(),
                bs == m@.messages,
                day == transcript_day(page@.title),
                day matches Some(d) ==> valid_date(d.0, d.1, d.2),
                user_id == user_id_in(m@.classes),
                user_name@ == monologue_user(m@),
                opt_view(mono_ts) == match m@.timestamp {
                    Some(p) => Some(element_text(p)),
                    None => None::<Seq<char>>,
                },
                fields == base + blocks_fields(m@, bs.take(bi as int)),
                messages@.len() == fields.len(),
                forall|i: int|
                    0 <= i < fields.len() ==> message_matches(
                        #[trigger] messages@[i],
                        fields[i],
                        day,
                    ),
            decreases nb - bi,
        {
            let b = &m.messages[bi];
            assert(bs.take(bi + 1).drop_last() =~= bs.take(bi as int));
            assert(bs.take(bi + 1).last() == b@);
            bi = bi + 1;
            let content = match &b.content {
                Some(c) => c,
                None => {
                    assert(fields == base + blocks_fields(m@, bs.take(bi as int)));
                    continue;
                },
            };
            let text = extract_transcript_text(content.as_slice());
            if text.as_str().is_empty() {
                assert(fields == base + blocks_fields(m@, bs.take(bi as int)));
                continue;
            }
            let name = first_text_of(&b.user_link, &b.user_name, &user_name);
            let raw_ts = match &b.timestamp {
                Some(p) => text_of(p.as_slice()),
                None => match &mono_ts {
                    Some(s) => s.clone(),
                    None => String::new(),
                },
            };
            let message_id = parse_message_id(b);
            let timestamp = normalize_timestamp(raw_ts.as_str(), day);
            let ghost f: MessageFields = (message_id, user_id, name@, text@, raw_ts@);
            assert(block_fields(m@, b@) == Some(f));
            let ghost before = messages@;
            messages.push(
                ChatMessage { message_id, user_id, user_name: name, text, timestamp },
            );
            proof {
                let old_fields = fields;
                fields = old_fields.push(f);
                assert(fields == base + blocks_fields(m@, bs.take(bi as int)));
                assert forall|i: int| 0 <= i < fields.len() implies message_matches(
                    #[trigger] messages@[i],
                    fields[i],
                    day,
                ) by {
                    if i < old_fields.len() {
                        assert(messages@[i] == before[i]);
                    }
                }
            }
        }
        proof {
            assert(bs.take(nb as int) =~= bs);
            assert(fields =~= monologues_fields(ms.take(mi + 1)));
        }
        mi = mi + 1;
    }
    assert(ms.take(nm as int) =~= ms);
    let total = messages.len();
    if total > limit {
        let ghost all = messages@;
        let kept = messages.split_off(total - limit);
        proof {
            let f = last_n(fields, limit as nat);
            assert(f =~= fields.skip(total - limit));
            assert forall|i: int| 0 <= i < kept@.len() implies message_matches(
                #[trigger] kept@[i],
                f[i],
                day,
            ) by {
                assert(kept@[i] == all[i + (total - limit)]);
            }
        }
        kept
    } else {
        messages
    }
}

/// The selector of the `.monologue` elements of a page.
pub const MONOLOGUE_SELECTOR: &'static str = ".monologue";

/// The selector of the `.message` elements of a monologue.
pub const MESSAGE_SELECTOR: &'static str = ".message";

/// The selector of a monologue's user link.
pub const SIGNATURE_USER_LINK_SELECTOR: &'static str = ".signature .username a";

/// The selector of a monologue's user name.
pub const SIGNATURE_USER_SELECTOR: &'static str = ".signature .username";

/// The selector of a message's user link.
pub const MESSAGE_USER_LINK_SELECTOR: &'static str = ".username a";

/// The selector of a message's user name.
pub const MESSAGE_USER_SELECTOR: &'static str = ".username";

/// The selector of a monologue's timestamp.
pub const MONOLOGUE_TIMESTAMP_SELECTOR: &'static str = ".messages > .timestamp";

/// The selector of a message's own timestamp.
pub const INLINE_TIMESTAMP_SELECTOR: &'static str = ".timestamp, .times";

/// The selector of a message's content.
pub const CONTENT_SELECTOR: &'static str = ".content";

/// The selector of a message's transcript link.
pub const MESSAGE_LINK_SELECTOR: &'static str = "a[href*='/transcript/message/']";

/// The selector of a page's title.
pub const TITLE_SELECTOR: &'static str = "title";

/// The selector of the chat form key of a room page.
pub const FKEY_SELECTOR: &'static str = "input#fkey";

/// The text nodes of the first element that the selector `selector`
/// finds below the element at `path` of the document parsed from `html`;
/// none when `scraper` refuses the selector or it finds nothing.
pub open spec fn first_texts_at(html: Seq<char>, path: Seq<(Seq<char>, nat)>, selector: Seq<char>) -> Option<
    Seq<Seq<char>>,
> {
    if css_selector_accepted(selector) && scraper_match_count(html, path, selector) > 0 {
        Some(scraper_text_nodes(html, path.push((selector, 0nat))))
    } else {
        None
    }
}

/// The number of elements that the selector finds below the element at
/// `path` (none when `scraper` refuses the selector).
pub open spec fn matches_at(html: Seq<char>, path: Seq<(Seq<char>, nat)>, selector: Seq<char>) -> nat {
    if css_selector_accepted(selector) {
        scraper_match_count(html, path, selector)
    } else {
        0
    }
}

/// What the reader takes from the `.message` element at `path` of the
/// document parsed from `html`.
pub open spec fn block_at(html: Seq<char>, path: Seq<(Seq<char>, nat)>) -> BlockView {
    BlockView {
        content: first_texts_at(html, path, CONTENT_SELECTOR@),
        user_link: first_texts_at(html, path, MESSAGE_USER_LINK_SELECTOR@),
        user_name: first_texts_at(html, path, MESSAGE_USER_SELECTOR@),
        timestamp: first_texts_at(html, path, INLINE_TIMESTAMP_SELECTOR@),
        id_attr: scraper_attribute(html, path, "id"@),
        data_message_id: scraper_attribute(html, path, "data-messageid"@),
        message_link: if matches_at(html, path, MESSAGE_LINK_SELECTOR@) > 0 {
            scraper_attribute(html, path.push((MESSAGE_LINK_SELECTOR@, 0nat)), "href"@)
        } else {
            None
        },
    }
}

/// What the reader takes from the `.monologue` element at `path` of the
/// document parsed from `html`.
pub open spec fn monologue_at(html: Seq<char>, path: Seq<(Seq<char>, nat)>) -> MonologueView {
    MonologueView {
        classes: scraper_class_names(html, path),
        signature_link: first_texts_at(html, path, SIGNATURE_USER_LINK_SELECTOR@),
        signature_name: first_texts_at(html, path, SIGNATURE_USER_SELECTOR@),
        timestamp: first_texts_at(html, path, MONOLOGUE_TIMESTAMP_SELECTOR@),
        messages: Seq::new(
            matches_at(html, path, MESSAGE_SELECTOR@),
            |j: int| block_at(html, path.push((MESSAGE_SELECTOR@, j as nat))),
        ),
    }
}

/// The page that the reader takes from the HTML text `html`: the title's
/// text nodes and, for each `.monologue` element in the order `scraper`
/// returns them, what it holds.
pub open spec fn page_of_html(html: Seq<char>) -> PageView {
    PageView {
        title: first_texts_at(html, Seq::empty(), TITLE_SELECTOR@),
        monologues: Seq::new(
            matches_at(html, Seq::empty(), MONOLOGUE_SELECTOR@),
            |i: int| monologue_at(html, seq![(MONOLOGUE_SELECTOR@, i as nat)]),
        ),
    }
}

/// The text nodes of the first element below `element` that `css` finds
/// (none without a selector).
fn first_texts(element: &DomElement, css: &Option<Css>) -> (res: Option<Vec<String>>)
    ensures
        opt_strings(res) == match css {
            None => None,
            Some(c) => if scraper_match_count(element@.0, element@.1, c@) > 0 {
                Some(scraper_text_nodes(element@.0, element@.1.push((c@, 0nat))))
            } else {
                None
            },
        },
{
    match css {
        None => None,
        Some(sel) => {
            let found = select_in_element(element, sel);
            if found.len() > 0 {
                let texts = text_nodes(&found[0]);
                assert(strings(texts@) == string_views(texts@));
                Some(texts)
            } else {
                None
            }
        },
    }
}

/// The selectors the transcript reader uses.
struct TranscriptSelectors {
    monologue: Option<Css>,
    message: Option<Css>,
    signature_user_link: Option<Css>,
    signature_user: Option<Css>,
    message_user_link: Option<Css>,
    message_user: Option<Css>,
    monologue_timestamp: Option<Css>,
    inline_timestamp: Option<Css>,
    content: Option<Css>,
    message_link: Option<Css>,
}

/// Whether `css` is what `scraper` makes of the selector text `text`.
spec fn parsed_from(css: Option<Css>, text: Seq<char>) -> bool {
    &&& css.is_some() == css_selector_accepted(text)
    &&& css matches Some(c) ==> c@ == text
}

/// Each selector is what `scraper` makes of its text.
spec fn selectors_parsed(s: TranscriptSelectors) -> bool {
    &&& parsed_from(s.monologue, MONOLOGUE_SELECTOR@)
    &&& parsed_from(s.message, MESSAGE_SELECTOR@)
    &&& parsed_from(s.signature_user_link, SIGNATURE_USER_LINK_SELECTOR@)
    &&& parsed_from(s.signature_user, SIGNATURE_USER_SELECTOR@)
    &&& parsed_from(s.message_user_link, MESSAGE_USER_LINK_SELECTOR@)
    &&& parsed_from(s.message_user, MESSAGE_USER_SELECTOR@)
    &&& parsed_from(s.monologue_timestamp, MONOLOGUE_TIMESTAMP_SELECTOR@)
    &&& parsed_from(s.inline_timestamp, INLINE_TIMESTAMP_SELECTOR@)
    &&& parsed_from(s.content, CONTENT_SELECTOR@)
    &&& parsed_from(s.message_link, MESSAGE_LINK_SELECTOR@)
}

/// The selectors, each parsed by `scraper` from its text.
fn transcript_selectors() -> (res: TranscriptSelectors)
    ensures
        selectors_parsed(res),
{
    TranscriptSelectors {
        monologue: parse_selector(MONOLOGUE_SELECTOR),
        message: parse_selector(MESSAGE_SELECTOR),
        signature_user_link: parse_selector(SIGNATURE_USER_LINK_SELECTOR),
        signature_user: parse_selector(SIGNATURE_USER_SELECTOR),
        message_user_link: parse_selector(MESSAGE_USER_LINK_SELECTOR),
        message_user: parse_selector(MESSAGE_USER_SELECTOR),
        monologue_timestamp: parse_selector(MONOLOGUE_TIMESTAMP_SELECTOR),
        inline_timestamp: parse_selector(INLINE_TIMESTAMP_SELECTOR),
        content: parse_selector(CONTENT_SELECTOR),
        message_link: parse_selector(MESSAGE_LINK_SELECTOR),
    }
}

/// What the reader takes from one `.message` element.
fn read_message_block(element: &DomElement, sels: &TranscriptSelectors) -> (res: MessageBlock)
    requires
        selectors_parsed(*sels),
    ensures
        res@ == block_at(element@.0, element@.1),
{
    let message_link = match &sels.message_link {
        None => None,
        Some(sel) => {
            let links = select_in_element(element, sel);
            if links.len() > 0 {
                attribute(&links[0], "href")
            } else {
                None
            }
        },
    };
    let res = MessageBlock {
        content: first_texts(element, &sels.content),
        user_link: first_texts(element, &sels.message_user_link),
        user_name: first_texts(element, &sels.message_user),
        timestamp: first_texts(element, &sels.inline_timestamp),
        id_attr: attribute(element, "id"),
        data_message_id: attribute(element, "data-messageid"),
        message_link,
    };
    assert(res@ == block_at(element@.0, element@.1));
    res
}

/// What the reader takes from one `.monologue` element.
fn read_monologue(element: &DomElement, sels: &TranscriptSelectors) -> (res: Monologue)
    requires
        selectors_parsed(*sels),
    ensures
        res@ == monologue_at(element@.0, element@.1),
{
    let ghost html = element@.0;
    let ghost path = element@.1;
    let ghost want = monologue_at(html, path).messages;
    let mut messages: Vec<MessageBlock> = Vec::new();
    if let Some(sel) = &sels.message {
        let found = select_in_element(element, sel);
        let n = found.len();
        let mut i: usize = 0;
        while i < n
            invariant
                i <= n == found@.len(),
                n == want.len(),
                selectors_parsed(*sels),
                sels.message == Some(*sel),
                sel@ == MESSAGE_SELECTOR@,
                html == element@.0,
                path == element@.1,
                want == monologue_at(html, path).messages,
                forall|j: int| 0 <= j < n ==> (#[trigger] found@[j])@ == (html, path.push((sel@, j as nat))),
                messages@.len() == i,
                forall|j: int| 0 <= j < i ==> (#[trigger] messages@[j])@ == want[j],
            decreases n - i,
        {
            let block = read_message_block(&found[i], sels);
            messages.push(block);
            i = i + 1;
        }
        assert(messages@.map_values(|b: MessageBlock| b@) =~= want);
    } else {
        assert(messages@.map_values(|b: MessageBlock| b@) =~= want);
    }
    let classes = class_names(element);
    assert(strings(classes@) == string_views(classes@));
    Monologue {
        classes,
        signature_link: first_texts(element, &sels.signature_user_link),
        signature_name: first_texts(element, &sels.signature_user),
        timestamp: first_texts(element, &sels.monologue_timestamp),
        messages,
    }
}

/// Reads a transcript page's HTML into the values the message reader looks
/// at, using `scraper` for the parsing and the selection.
pub fn read_transcript_page(html_text: &str) -> (res: TranscriptPage)
    ensures
        res@ == page_of_html(html_text@),
{
    let document = parse_document(html_text);
    let sels = transcript_selectors();
    let ghost html = html_text@;
    let ghost root = Seq::<(Seq<char>, nat)>::empty();
    let title = match parse_selector(TITLE_SELECTOR) {
        None => None,
        Some(sel) => {
            let found = select_in_document(&document, &sel);
            if found.len() > 0 {
                let texts = text_nodes(&found[0]);
                assert(strings(texts@) == string_views(texts@));
                Some(texts)
            } else {
                None
            }
        },
    };
    let ghost want = page_of_html(html).monologues;
    let mut monologues: Vec<Monologue> = Vec::new();
    if let Some(sel) = &sels.monologue {
        let found = select_in_document(&document, sel);
        let n = found.len();
        let mut i: usize = 0;
        while i < n
            invariant
                i <= n == found@.len(),
                n == want.len(),
                selectors_parsed(sels),
                sel@ == MONOLOGUE_SELECTOR@,
                root == Seq::<(Seq<char>, nat)>::empty(),
                want == page_of_html(html).monologues,
                forall|j: int| 0 <= j < n ==> (#[trigger] found@[j])@ == (html, root.push((sel@, j as nat))),
                monologues@.len() == i,
                forall|j: int| 0 <= j < i ==> (#[trigger] monologues@[j])@ == want[j],
            decreases n - i,
        {
            let m = read_monologue(&found[i], &sels);
            assert(root.push((sel@, i as nat)) =~= seq![(MONOLOGUE_SELECTOR@, i as nat)]);
            assert(want[i as int] == monologue_at(html, seq![(MONOLOGUE_SELECTOR@, i as nat)]));
            let ghost before = monologues@;
            monologues.push(m);
            assert forall|j: int| 0 <= j < i + 1 implies (#[trigger] monologues@[j])@ == want[j] by {
                if j < i {
                    assert(monologues@[j] == before[j]);
                }
            }
            i = i + 1;
        }
        assert(monologues@.map_values(|m: Monologue| m@) =~= want);
    } else {
        assert(monologues@.map_values(|m: Monologue| m@) =~= want);
    }
    TranscriptPage { title, monologues }
}

/// The last `limit` chat messages of a transcript page's HTML: the messages
/// of the page that `scraper` reads from it, as `messages_from_page` states
/// them.
pub fn parse_transcript_html(html_text: &str, limit: usize) -> (res: Vec<ChatMessage>)
    ensures
        page_messages_ok(page_of_html(html_text@), limit, res@),
{
    let page = read_transcript_page(html_text);
    messages_from_page(&page, limit)
}

/// The chat form key of a room page as `scraper` finds it: the `value`
/// attribute of the first `input#fkey` element.
pub open spec fn fkey_of_html(html: Seq<char>) -> Option<Seq<char>> {
    let root = Seq::<(Seq<char>, nat)>::empty();
    if matches_at(html, root, FKEY_SELECTOR@) > 0 {
        scraper_attribute(html, root.push((FKEY_SELECTOR@, 0nat)), "value"@)
    } else {
        None
    }
}

/// The chat form key of a room page: the `value` attribute of the first
/// `input#fkey` element, as `scraper` finds it.
pub fn parse_fkey(html_text: &str) -> (res: Option<String>)
    ensures
        opt_view(res) == fkey_of_html(html_text@),
{
    let document = parse_document(html_text);
    match parse_selector(FKEY_SELECTOR) {
        None => None,
        Some(sel) => {
            let found = select_in_document(&document, &sel);
            if found.len() > 0 {
                attribute(&found[0], "value")
            } else {
                None
            }
        },
    }
}

/// Law: a page never yields more messages than the limit; it yields exactly
/// `limit` of them whenever it shows at least that many.
pub proof fn law_page_limit(page: PageView, limit: usize, res: Seq<ChatMessage>)
    requires
        page_messages_ok(page, limit, res),
    ensures
        res.len() <= limit,
        monologues_fields(page.monologues).len() >= limit ==> res.len() == limit,
        monologues_fields(page.monologues).len() < limit ==> res.len()
            == monologues_fields(page.monologues).len(),
{
}

/// Law: the messages kept for a smaller limit are the last ones of those
/// kept for a larger limit on the same page: the same ids, user ids, user
/// names and texts (timestamps read from the clock may differ).
pub proof fn law_smaller_limit_keeps_last(
    page: PageView,
    limit: usize,
    res: Seq<ChatMessage>,
    larger: usize,
    all: Seq<ChatMessage>,
)
    requires
        page_messages_ok(page, limit, res),
        page_messages_ok(page, larger, all),
        limit <= larger,
    ensures
        res.len() == (if limit < all.len() { limit as nat } else { all.len() }),
        forall|i: int|
            0 <= i < res.len() ==> {
                let m = #[trigger] res[i];
                let k = all[all.len() - res.len() + i];
                &&& m.message_id == k.message_id
                &&& m.user_id == k.user_id
                &&& m.user_name@ == k.user_name@
                &&& m.text@ == k.text@
            },
{
    let f = monologues_fields(page.monologues);
    let a = last_n(f, limit as nat);
    let b = last_n(f, larger as nat);
    assert forall|i: int| 0 <= i < res.len() implies {
        let m = #[trigger] res[i];
        let k = all[all.len() - res.len() + i];
        &&& m.message_id == k.message_id
        &&& m.user_id == k.user_id
        &&& m.user_name@ == k.user_name@
        &&& m.text@ == k.text@
    } by {
        let j = all.len() - res.len() + i;
        assert(a[i] == f[f.len() - a.len() + i]);
        assert(b[j] == f[f.len() - b.len() + j]);
        assert(0 <= j < all.len());
    }
}

} // verus!
