//! The decisions of the interactive shell: what an input line asks for,
//! which cookie a cookie input leaves, and how a message is shown.

use vstd::prelude::*;
use vstd::string::StringSliceAdditionalSpecFns;

use crate::chat::ChatMessage;
use crate::cookie::{existing_text, mask_cookie, masked, normalize_cookie_input, normalized_cookie};
use crate::text::{chars_of, copy_range, has_prefix, starts_with_chars, trim, trim_bounds, trim_chars};

verus! {

/// What one line typed into the shell asks for.
#[derive(Debug)]
pub enum ShellCommand {
    /// A blank line: nothing to do.
    Empty,
    /// `/quit` or `/exit`.
    Quit,
    /// `/help`.
    Help,
    /// `/show-cookie`.
    ShowCookie,
    /// `/cookie <text>`: the cookie text, as typed after the command.
    SetCookie(String),
    /// `/cookie-file <path>`: the path, trimmed.
    LoadCookieFile(String),
    /// Any other line that starts with `/`: the whole trimmed line.
    Unknown(String),
    /// Anything else: the trimmed line, to be sent as a chat message.
    Send(String),
}

/// The mathematical form of a [`ShellCommand`].
pub enum Command {
    Empty,
    Quit,
    Help,
    ShowCookie,
    SetCookie(Seq<char>),
    LoadCookieFile(Seq<char>),
    Unknown(Seq<char>),
    Send(Seq<char>),
}

impl View for ShellCommand {
    type V = Command;

    open spec fn view(&self) -> Command {
        match self {
            ShellCommand::Empty => Command::Empty,
            ShellCommand::Quit => Command::Quit,
            ShellCommand::Help => Command::Help,
            ShellCommand::ShowCookie => Command::ShowCookie,
            ShellCommand::SetCookie(s) => Command::SetCookie(s@),
            ShellCommand::LoadCookieFile(s) => Command::LoadCookieFile(s@),
            ShellCommand::Unknown(s) => Command::Unknown(s@),
            ShellCommand::Send(s) => Command::Send(s@),
        }
    }
}

/// The command that an input line holds, decided on the trimmed line.
pub open spec fn command_of(line: Seq<char>) -> Command {
    let t = trim(line);
    if t.len() == 0 {
        Command::Empty
    } else if t == "/quit"@ || t == "/exit"@ {
        Command::Quit
    } else if t == "/help"@ {
        Command::Help
    } else if t == "/show-cookie"@ {
        Command::ShowCookie
    } else if has_prefix(t, "/cookie "@) {
        Command::SetCookie(t.skip("/cookie "@.len() as int))
    } else if has_prefix(t, "/cookie-file "@) {
        Command::LoadCookieFile(trim(t.skip("/cookie-file "@.len() as int)))
    } else if has_prefix(t, "/"@) {
        Command::Unknown(t)
    } else {
        Command::Send(t)
    }
}

/// Reads the command of one input line.
pub fn parse_shell_command(line: &str) -> (res: ShellCommand)
    ensures
        res@ == command_of(line@),
{
    let v = chars_of(line);
    let (a, b) = trim_bounds(&v);
    let t = copy_range(&v, a, b);
    if t.len() == 0 {
        return ShellCommand::Empty;
    }
    let quit = chars_of("/quit");
    let exit = chars_of("/exit");
    if crate::text::chars_eq(&t, &quit) || crate::text::chars_eq(&t, &exit) {
        return ShellCommand::Quit;
    }
    if crate::text::chars_eq(&t, &chars_of("/help")) {
        return ShellCommand::Help;
    }
    if crate::text::chars_eq(&t, &chars_of("/show-cookie")) {
        return ShellCommand::ShowCookie;
    }
    let set_prefix = chars_of("/cookie ");
    if starts_with_chars(&t, &set_prefix) {
        let rest = copy_range(&t, set_prefix.len(), t.len());
        assert(rest@ =~= t@.skip(set_prefix@.len() as int));
        return ShellCommand::SetCookie(crate::text::string_from_chars(&rest));
    }
    let file_prefix = chars_of("/cookie-file ");
    if starts_with_chars(&t, &file_prefix) {
        let rest = copy_range(&t, file_prefix.len(), t.len());
        assert(rest@ =~= t@.skip(file_prefix@.len() as int));
        let path = trim_chars(&rest);
        return ShellCommand::LoadCookieFile(crate::text::string_from_chars(&path));
    }
    let text = crate::text::string_from_chars(&t);
    if starts_with_chars(&t, &chars_of("/")) {
        ShellCommand::Unknown(text)
    } else {
        ShellCommand::Send(text)
    }
}

/// The cookie that a cookie input leaves: the input merged into the existing
/// cookie, or nothing when the input holds no cookie.
pub open spec fn cookie_after_input(value: Seq<char>, existing: Seq<char>) -> Option<Seq<char>> {
    let merged = normalized_cookie(value, existing);
    if merged.len() == 0 {
        None
    } else {
        Some(merged)
    }
}

/// Merges cookie text (typed, or read from a file) into the existing
/// cookie; `None` when the text holds no cookie.
pub fn merged_cookie(value: &str, existing_cookie: Option<&str>) -> (res: Option<String>)
    ensures
        match res {
            Some(s) => cookie_after_input(value@, existing_text(existing_cookie)) == Some(s@),
            None => cookie_after_input(value@, existing_text(existing_cookie)) == None::<
                Seq<char>,
            >,
        },
{
    let cleaned = normalize_cookie_input(value, existing_cookie);
    if cleaned.as_str().is_empty() {
        None
    } else {
        Some(cleaned)
    }
}

/// Why the shell stops on a command.
#[derive(Debug)]
pub enum ShellError {
    /// A message was typed while no cookie is set.
    NoCookie,
    /// A cookie file held no cookie.
    CookieFileEmpty,
}

/// What the shell does in reply to one command.
#[derive(Debug)]
pub enum ShellAction {
    /// Nothing (a blank line).
    Nothing,
    /// Leave the shell.
    Quit,
    /// Show the help.
    Help,
    /// Show the masked cookie, or that none is set.
    ShowCookie(Option<String>),
    /// Save and hold this cookie.
    SaveCookie(String),
    /// Tell that the typed text held no cookie.
    CookieEmpty,
    /// Read the cookie file at this path, then take its text with
    /// `cookie_file_step`.
    ReadCookieFile(String),
    /// Tell that the command is unknown.
    Unknown(String),
    /// Send this text with this cookie.
    Send(String, String),
}

/// The mathematical form of a [`ShellAction`].
pub enum Action {
    Nothing,
    Quit,
    Help,
    ShowCookie(Option<Seq<char>>),
    SaveCookie(Seq<char>),
    CookieEmpty,
    ReadCookieFile(Seq<char>),
    Unknown(Seq<char>),
    Send(Seq<char>, Seq<char>),
}

impl View for ShellAction {
    type V = Action;

    open spec fn view(&self) -> Action {
        match self {
            ShellAction::Nothing => Action::Nothing,
            ShellAction::Quit => Action::Quit,
            ShellAction::Help => Action::Help,
            ShellAction::ShowCookie(m) => Action::ShowCookie(
                match m {
                    Some(s) => Some(s@),
                    None => None,
                },
            ),
            ShellAction::SaveCookie(s) => Action::SaveCookie(s@),
            ShellAction::CookieEmpty => Action::CookieEmpty,
            ShellAction::ReadCookieFile(p) => Action::ReadCookieFile(p@),
            ShellAction::Unknown(t) => Action::Unknown(t@),
            ShellAction::Send(t, c) => Action::Send(t@, c@),
        }
    }
}

/// The view of an optional cookie.
pub open spec fn cookie_view(cookie: Option<&str>) -> Option<Seq<char>> {
    match cookie {
        Some(c) => Some(c@),
        None => None,
    }
}

/// What the shell does for a command while holding `cookie`.
pub open spec fn step_of(command: Command, cookie: Option<Seq<char>>) -> Result<Action, ShellError> {
    let existing = match cookie {
        Some(c) => c,
        None => Seq::empty(),
    };
    match command {
        Command::Empty => Ok(Action::Nothing),
        Command::Quit => Ok(Action::Quit),
        Command::Help => Ok(Action::Help),
        Command::ShowCookie => Ok(
            Action::ShowCookie(
                match cookie {
                    Some(c) => Some(masked(c)),
                    None => None,
                },
            ),
        ),
        Command::SetCookie(v) => match cookie_after_input(v, existing) {
            Some(merged) => Ok(Action::SaveCookie(merged)),
            None => Ok(Action::CookieEmpty),
        },
        Command::LoadCookieFile(p) => Ok(Action::ReadCookieFile(p)),
        Command::Unknown(t) => Ok(Action::Unknown(t)),
        Command::Send(t) => match cookie {
            Some(c) => Ok(Action::Send(t, c)),
            None => Err(ShellError::NoCookie),
        },
    }
}

/// Decides what the shell does for a command while holding `cookie`.
pub fn shell_step(command: ShellCommand, cookie: Option<&str>) -> (res: Result<ShellAction, ShellError>)
    ensures
        match (res, step_of(command@, cookie_view(cookie))) {
            (Ok(a), Ok(b)) => a@ == b,
            (Err(e), Err(f)) => e == f,
            _ => false,
        },
{
    match command {
        ShellCommand::Empty => Ok(ShellAction::Nothing),
        ShellCommand::Quit => Ok(ShellAction::Quit),
        ShellCommand::Help => Ok(ShellAction::Help),
        ShellCommand::ShowCookie => match cookie {
            Some(c) => Ok(ShellAction::ShowCookie(Some(mask_cookie(c)))),
            None => Ok(ShellAction::ShowCookie(None)),
        },
        ShellCommand::SetCookie(v) => {
            assert(existing_text(cookie) == match cookie_view(cookie) {
                Some(c) => c,
                None => Seq::<char>::empty(),
            });
            match merged_cookie(v.as_str(), cookie) {
                Some(merged) => Ok(ShellAction::SaveCookie(merged)),
                None => Ok(ShellAction::CookieEmpty),
            }
        },
        ShellCommand::LoadCookieFile(p) => Ok(ShellAction::ReadCookieFile(p)),
        ShellCommand::Unknown(t) => Ok(ShellAction::Unknown(t)),
        ShellCommand::Send(t) => match cookie {
            Some(c) => Ok(ShellAction::Send(t, c.to_string())),
            None => Err(ShellError::NoCookie),
        },
    }
}

/// Takes the text read from a cookie file: the cookie it leaves merged into
/// `cookie`, or an error when the file holds no cookie.
pub fn cookie_file_step(loaded: &str, cookie: Option<&str>) -> (res: Result<String, ShellError>)
    ensures
        match res {
            Ok(s) => cookie_after_input(loaded@, existing_text(cookie)) == Some(s@),
            Err(e) => e == ShellError::CookieFileEmpty && cookie_after_input(
                loaded@,
                existing_text(cookie),
            ) == None::<Seq<char>>,
        },
{
    match merged_cookie(loaded, cookie) {
        Some(merged) => Ok(merged),
        None => Err(ShellError::CookieFileEmpty),
    }
}

/// The bytes `a..b` of `s` as a string slice (`&s[a..b]`, which needs both
/// ends to be character boundaries), taken with two `str::split_at`.
fn byte_slice(s: &str, a: usize, b: usize) -> (res: &str)
    requires
        a <= b <= s.spec_bytes().len(),
        vstd::utf8::is_char_boundary(s.spec_bytes(), a as int),
        vstd::utf8::is_char_boundary(s.spec_bytes(), b as int),
    ensures
        res.spec_bytes() == s.spec_bytes().subrange(a as int, b as int),
        res@ == vstd::utf8::decode_utf8(s.spec_bytes().subrange(a as int, b as int)),
{
    let (_, rest) = s.split_at(a);
    proof {
        let bytes = s.spec_bytes();
        let rb = rest.spec_bytes();
        assert(rb =~= bytes.subrange(a as int, bytes.len() as int));
        vstd::utf8::encode_utf8_valid_utf8(s@);
        vstd::utf8::encode_utf8_valid_utf8(rest@);
        if b < bytes.len() {
            vstd::utf8::is_char_boundary_iff_not_is_continuation_byte(bytes, b as int);
            vstd::utf8::is_char_boundary_iff_not_is_continuation_byte(rb, b - a);
            assert(rb[b - a] == bytes[b as int]);
        } else {
            vstd::utf8::is_char_boundary_start_end_of_seq(rb);
        }
    }
    let (mid, _) = rest.split_at(b - a);
    proof {
        assert(mid.spec_bytes() =~= s.spec_bytes().subrange(a as int, b as int));
        vstd::utf8::encode_utf8_decode_utf8(mid@);
    }
    mid
}

/// The time of day shown for a message: bytes 11 to 19 of an RFC 3339
/// timestamp (`HH:MM:SS`), or the whole text when it is shorter than 19
/// bytes.
pub open spec fn short_timestamp_text(timestamp: Seq<char>) -> Seq<char> {
    let bytes = vstd::utf8::encode_utf8(timestamp);
    if bytes.len() >= 19 {
        vstd::utf8::decode_utf8(bytes.subrange(11, 19))
    } else {
        timestamp
    }
}

/// Whether bytes 11 and 19 of a timestamp of at least 19 bytes are
/// character boundaries, as slicing them requires.
pub open spec fn short_timestamp_sliceable(timestamp: Seq<char>) -> bool {
    let bytes = vstd::utf8::encode_utf8(timestamp);
    bytes.len() >= 19 ==> vstd::utf8::is_char_boundary(bytes, 11)
        && vstd::utf8::is_char_boundary(bytes, 19)
}

/// The `HH:MM:SS` part of an RFC 3339 timestamp, or the whole text when it
/// is shorter than 19 bytes.
pub fn short_timestamp(timestamp: &str) -> (res: &str)
    requires
        short_timestamp_sliceable(timestamp@),
    ensures
        res@ == short_timestamp_text(timestamp@),
{
    if timestamp.as_bytes().len() >= 19 {
        byte_slice(timestamp, 11, 19)
    } else {
        timestamp
    }
}

/// The line shown for a message: `[kind] time user: text`.
pub open spec fn message_line_text(kind: Seq<char>, message: ChatMessage) -> Seq<char> {
    "["@ + kind + "] "@ + short_timestamp_text(message.timestamp@) + " "@
        + message.user_name@ + ": "@ + message.text@
}

/// Formats a message for the shell as `[kind] time user: text`.
pub fn message_line(kind: &str, message: &ChatMessage) -> (res: String)
    requires
        short_timestamp_sliceable(message.timestamp@),
    ensures
        res@ == message_line_text(kind@, *message),
{
    let mut out = String::new();
    out.append("[");
    out.append(kind);
    out.append("] ");
    out.append(short_timestamp(message.timestamp.as_str()));
    out.append(" ");
    out.append(message.user_name.as_str());
    out.append(": ");
    out.append(message.text.as_str());
    out
}

/// Law: every input whose trimmed text is not empty and does not start with
/// `/` is sent as a chat message (its trimmed text), and no input whose
/// trimmed text starts with `/` is sent.
pub proof fn law_plain_input_is_sent(line: Seq<char>)
    ensures
        trim(line).len() > 0 && !has_prefix(trim(line), "/"@) ==> command_of(line) == Command::Send(
            trim(line),
        ),
        has_prefix(trim(line), "/"@) ==> !(command_of(line) is Send),
{
    let t = trim(line);
    reveal_strlit("/");
    reveal_strlit("/quit");
    reveal_strlit("/exit");
    reveal_strlit("/help");
    reveal_strlit("/show-cookie");
    reveal_strlit("/cookie ");
    reveal_strlit("/cookie-file ");
    if t.len() > 0 && !has_prefix(t, "/"@) {
        assert(t.take(1) != "/"@);
        assert(t[0] != '/') by {
            if t[0] == '/' {
                assert(t.take(1) =~= "/"@);
            }
        }
        assert(t != "/quit"@ && t != "/exit"@ && t != "/help"@ && t != "/show-cookie"@) by {
            assert("/quit"@[0] == '/' && "/exit"@[0] == '/' && "/help"@[0] == '/');
            assert("/show-cookie"@[0] == '/');
        }
        assert(!has_prefix(t, "/cookie "@)) by {
            if has_prefix(t, "/cookie "@) {
                assert(t.take(8)[0] == t[0]);
            }
        }
        assert(!has_prefix(t, "/cookie-file "@)) by {
            if has_prefix(t, "/cookie-file "@) {
                assert(t.take(13)[0] == t[0]);
            }
        }
    }
}

/// Law (`/cookie`): for a line whose trimmed text begins with `/cookie `,
/// the cookie text is the whole rest of that trimmed text, `;`s and all.
pub proof fn law_cookie_command_keeps_rest(line: Seq<char>)
    ensures
        has_prefix(trim(line), "/cookie "@) ==> (command_of(line) matches Command::SetCookie(v)
            && "/cookie "@ + v == trim(line)),
{
    let t = trim(line);
    reveal_strlit("/cookie ");
    reveal_strlit("/quit");
    reveal_strlit("/exit");
    reveal_strlit("/help");
    reveal_strlit("/show-cookie");
    if has_prefix(t, "/cookie "@) {
        assert(t[1] == 'c') by {
            assert(t.take(8)[1] == t[1]);
        }
        assert(t != "/quit"@ && t != "/exit"@ && t != "/help"@ && t != "/show-cookie"@) by {
            assert("/quit"@[1] == 'q' && "/exit"@[1] == 'e' && "/help"@[1] == 'h');
            assert("/show-cookie"@[1] == 's');
        }
        assert(t.take(8) + t.skip(8) =~= t);
    }
}

/// Law (commands are never sent): whatever cookie is held, a line whose
/// trimmed text starts with `/` never leads to sending a message, and an
/// unknown command is reported as unknown.
pub proof fn law_commands_never_sent(line: Seq<char>, cookie: Option<Seq<char>>)
    ensures
        has_prefix(trim(line), "/"@) ==> !(step_of(command_of(line), cookie) matches Ok(
            Action::Send(_, _),
        )),
        command_of(line) matches Command::Unknown(t) ==> step_of(command_of(line), cookie) == Ok::<
            Action,
            ShellError,
        >(Action::Unknown(t)),
{
    law_plain_input_is_sent(line);
}

} // verus!
