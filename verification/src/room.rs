//! The endpoints of a chat room and the decisions about the requests sent
//! to them.

use vstd::prelude::*;

use crate::number::{decimal, push_decimal};
use crate::pattern::opt_view;
use crate::text::{chars_of, copy_range, string_from_chars, trim};

verus! {

/// The `User-Agent` sent with every request.
pub const USER_AGENT: &'static str = "r15-shell/0.1 (+https://github.com/rajaasim/r15-shell)";

/// `s` without its trailing `c` characters (`str::trim_end_matches` with a
/// char).
pub open spec fn trim_trailing(s: Seq<char>, c: char) -> Seq<char>
    decreases s.len(),
{
    if s.len() > 0 && s.last() == c {
        trim_trailing(s.drop_last(), c)
    } else {
        s
    }
}

/// A chat room of a chat server: the server's base URL, without trailing
/// slashes, and the room's number.
#[derive(Debug, Clone)]
pub struct ChatRoom {
    pub base_url: String,
    pub room_id: u64,
}

/// The decimal text of a room number.
fn decimal_string(n: u64) -> (res: String)
    ensures
        res@ == decimal(n as nat),
{
    let mut v: Vec<char> = Vec::new();
    push_decimal(&mut v, n);
    assert(v@ =~= decimal(n as nat));
    string_from_chars(&v)
}

impl ChatRoom {
    /// The room `room_id` of the chat server at `base_url`; trailing slashes
    /// of the URL are dropped.
    pub fn new(base_url: &str, room_id: u64) -> (res: ChatRoom)
        ensures
            res.base_url@ == trim_trailing(base_url@, '/'),
            res.room_id == room_id,
    {
        let v = chars_of(base_url);
        let mut end = v.len();
        assert(v@.take(end as int) =~= v@);
        while end > 0 && v[end - 1] == '/'
            invariant
                end <= v@.len(),
                trim_trailing(v@, '/') == trim_trailing(v@.take(end as int), '/'),
            decreases end,
        {
            assert(v@.take(end as int).drop_last() =~= v@.take(end - 1));
            end = end - 1;
        }
        assert(v@.take(end as int) =~= v@.subrange(0, end as int));
        let base = copy_range(&v, 0, end);
        ChatRoom { base_url: string_from_chars(&base), room_id }
    }

    /// The base URL followed by `path` and, when given, the room number and
    /// `tail`.
    fn url(&self, path: &str, with_room: bool, tail: &str) -> (res: String)
        ensures
            res@ == self.base_url@ + path@ + (if with_room {
                decimal(self.room_id as nat) + tail@
            } else {
                Seq::empty()
            }),
    {
        let mut out = self.base_url.clone();
        out.append(path);
        if with_room {
            let id = decimal_string(self.room_id);
            out.append(id.as_str());
            out.append(tail);
        }
        assert(out@ =~= self.base_url@ + path@ + (if with_room {
            decimal(self.room_id as nat) + tail@
        } else {
            Seq::empty()
        }));
        out
    }

    /// `{base}/transcript/{room}`: the room's transcript page.
    pub fn transcript_url(&self) -> (res: String)
        ensures
            res@ == self.base_url@ + "/transcript/"@ + decimal(self.room_id as nat),
    {
        let r = self.url("/transcript/", true, "");
        assert(r@ =~= self.base_url@ + "/transcript/"@ + decimal(self.room_id as nat)) by {
            reveal_strlit("");
        }
        r
    }

    /// `{base}/rooms/{room}`: the room page, also sent as the referer.
    pub fn room_url(&self) -> (res: String)
        ensures
            res@ == self.base_url@ + "/rooms/"@ + decimal(self.room_id as nat),
    {
        let r = self.url("/rooms/", true, "");
        assert(r@ =~= self.base_url@ + "/rooms/"@ + decimal(self.room_id as nat)) by {
            reveal_strlit("");
        }
        r
    }

    /// `{base}/chats/{room}/messages/new`: where new messages are posted.
    pub fn new_message_url(&self) -> (res: String)
        ensures
            res@ == self.base_url@ + "/chats/"@ + decimal(self.room_id as nat)
                + "/messages/new"@,
    {
        let r = self.url("/chats/", true, "/messages/new");
        assert(r@ =~= self.base_url@ + "/chats/"@ + decimal(self.room_id as nat)
            + "/messages/new"@);
        r
    }

    /// `{base}/users/set-pref/53`: where the chat preference is acknowledged.
    pub fn set_pref_url(&self) -> (res: String)
        ensures
            res@ == self.base_url@ + "/users/set-pref/53"@,
    {
        let r = self.url("/users/set-pref/53", false, "");
        assert(r@ =~= self.base_url@ + "/users/set-pref/53"@);
        r
    }

    /// `{base}/rooms/set-has-seen-guidelines`: where the room guidelines are
    /// acknowledged.
    pub fn guidelines_url(&self) -> (res: String)
        ensures
            res@ == self.base_url@ + "/rooms/set-has-seen-guidelines"@,
    {
        let r = self.url("/rooms/set-has-seen-guidelines", false, "");
        assert(r@ =~= self.base_url@ + "/rooms/set-has-seen-guidelines"@);
        r
    }

    /// The room number as decimal text (the `roomId` form field).
    pub fn room_id_text(&self) -> (res: String)
        ensures
            res@ == decimal(self.room_id as nat),
    {
        decimal_string(self.room_id)
    }
}

/// The `Cookie` header to send: the cookie text as given, unless it is
/// absent or blank.
pub fn cookie_header_value(cookie_header: Option<&str>) -> (res: Option<String>)
    ensures
        match cookie_header {
            Some(c) => if trim(c@).len() > 0 {
                res matches Some(v) && v@ == c@
            } else {
                res is None
            },
            None => res is None,
        },
{
    match cookie_header {
        None => None,
        Some(c) => {
            let t = crate::text::trim_chars(&chars_of(c));
            if t.len() == 0 {
                None
            } else {
                Some(c.to_owned())
            }
        },
    }
}

/// Whether a reply's `x-chat-human` header asks for human verification: its
/// value is exactly `required`.
pub fn human_verification_required(header_value: Option<&str>) -> (res: bool)
    ensures
        res == (header_value matches Some(v) && v@ == "required"@),
{
    match header_value {
        None => false,
        Some(v) => crate::text::chars_eq(&chars_of(v), &chars_of("required")),
    }
}

/// Whether a byte may stand in an HTTP header value: a visible ASCII
/// character, a space, a tab, or a byte of 128 or more.
pub open spec fn header_byte_ok(b: u8) -> bool {
    (b >= 32 && b != 127) || b == 9
}

/// Whether every byte of the UTF-8 form of `text` may stand in an HTTP
/// header value.
pub open spec fn header_text_ok(text: Seq<char>) -> bool {
    let bytes = vstd::utf8::encode_utf8(text);
    forall|i: int| 0 <= i < bytes.len() ==> header_byte_ok(#[trigger] bytes[i])
}

/// Whether `reqwest::header::HeaderValue::from_str` accepts `text`.
/// Trusted: `http` accepts a value exactly when each of its bytes is a
/// visible ASCII character, a space, a tab or a byte of 128 or more, which
/// `header_text_ok` states.
#[verifier::external_body]
fn header_value_accepted(text: &str) -> (res: bool)
    ensures
        res == header_text_ok(text@),
{
    reqwest::header::HeaderValue::from_str(text).is_ok()
}

/// Why request headers cannot be built.
#[derive(Debug)]
pub enum HeaderError {
    /// The cookie holds a character that a header value cannot hold.
    InvalidCookie,
    /// The referer holds a character that a header value cannot hold.
    InvalidReferer,
}

/// The `Cookie` header text to send: the cookie as given, unless absent or
/// blank.
pub open spec fn cookie_to_send(cookie_header: Option<Seq<char>>) -> Option<Seq<char>> {
    match cookie_header {
        Some(c) => if trim(c).len() > 0 {
            Some(c)
        } else {
            None
        },
        None => None,
    }
}

/// The `Cookie` and `Referer` header values of a request, or why they
/// cannot be sent (the cookie is looked at first).
pub open spec fn header_values_of(cookie_header: Option<Seq<char>>, referer: Option<Seq<char>>) -> Result<
    (Option<Seq<char>>, Option<Seq<char>>),
    HeaderError,
> {
    let cookie = cookie_to_send(cookie_header);
    if cookie matches Some(c) && !header_text_ok(c) {
        Err(HeaderError::InvalidCookie)
    } else if referer matches Some(r) && !header_text_ok(r) {
        Err(HeaderError::InvalidReferer)
    } else {
        Ok((cookie, referer))
    }
}

/// The view of an optional text.
pub open spec fn opt_text(o: Option<&str>) -> Option<Seq<char>> {
    match o {
        Some(s) => Some(s@),
        None => None,
    }
}

/// The `Cookie` and `Referer` header values of a request (each checked as
/// a header value), or which of them cannot be sent.
pub fn request_header_values(cookie_header: Option<&str>, referer: Option<&str>) -> (res: Result<
    (Option<String>, Option<String>),
    HeaderError,
>)
    ensures
        match (res, header_values_of(opt_text(cookie_header), opt_text(referer))) {
            (Ok((c, r)), Ok((c2, r2))) => opt_view(c) == c2 && opt_view(r) == r2,
            (Err(e), Err(f)) => e == f,
            _ => false,
        },
{
    let cookie = cookie_header_value(cookie_header);
    if let Some(c) = &cookie {
        if !header_value_accepted(c.as_str()) {
            return Err(HeaderError::InvalidCookie);
        }
    }
    let referer_value = match referer {
        Some(r) => {
            if !header_value_accepted(r) {
                return Err(HeaderError::InvalidReferer);
            }
            Some(r.to_owned())
        },
        None => None,
    };
    Ok((cookie, referer_value))
}

} // verus!
