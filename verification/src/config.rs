//! The shell's settings and where its cookie file lives.

use vstd::prelude::*;

verus! {

/// The settings of the shell (command-line options or environment).
#[derive(Debug, Clone)]
pub struct Args {
    /// The chat room to read and post to.
    pub room_id: u64,
    /// Seconds between two polls of the transcript.
    pub poll_seconds: u64,
    /// How many recent messages to read.
    pub transcript_limit: usize,
    /// Where the cookie is saved, if given.
    pub cookie_file: Option<String>,
    /// The chat server's URL.
    pub chat_url: String,
    /// The site's URL.
    pub site_url: String,
}

/// Whether `base` is a bare Windows drive prefix such as `C:`.
pub open spec fn drive_prefix(base: Seq<char>) -> bool {
    base.len() == 2 && base[1] == ':'
}

/// Whether `base` is a Windows verbatim path (it begins with `\\?\`).
pub open spec fn verbatim_path(base: Seq<char>) -> bool {
    base.len() >= 4 && base.take(4) == seq!['\\', '\\', '?', '\\']
}

/// Whether `joined` is `base` with `name` adjoined as a path component: the
/// two texts with a `/` or `\` between them, or with nothing between them
/// after a base that is empty, already ends in a separator, or is a bare
/// drive prefix.
pub open spec fn adjoined(base: Seq<char>, name: Seq<char>, joined: Seq<char>) -> bool {
    ||| (base.len() == 0 || base.last() == '/' || base.last() == '\\' || drive_prefix(base))
        && joined == base + name
    ||| joined == base + seq!['/'] + name
    ||| joined == base + seq!['\\'] + name
}

/// Whether `path` ends with `name` as its last component: a `/` or `\`
/// and then `name`.
pub open spec fn ends_in_component(path: Seq<char>, name: Seq<char>) -> bool {
    ||| exists|p: Seq<char>| path == p + seq!['/'] + name
    ||| exists|p: Seq<char>| path == p + seq!['\\'] + name
}

/// The user's configuration directory for the application, as
/// `directories::ProjectDirs::from(qualifier, organization, application)`
/// gives it (converted to text). Trusted: it depends on the environment, so
/// nothing is claimed of it.
#[verifier::external_body]
fn project_config_dir(qualifier: &str, organization: &str, application: &str) -> Option<String> {
    match directories::ProjectDirs::from(qualifier, organization, application) {
        Some(dirs) => Some(dirs.config_dir().to_string_lossy().into_owned()),
        None => None,
    }
}

/// `Path::join` of a plain file name to a base path (converted to text).
/// Trusted: for a non-empty name without separators or drive colon that is
/// neither `.` nor `..`, the standard library documents the name adjoined
/// to the base with the platform's separator (left unsaid beyond `/` or
/// `\`). After a Windows verbatim base it documents the path as normalized,
/// so of such a base only that the name comes last, after a separator, is
/// claimed.
#[verifier::external_body]
fn join_path(base: &str, name: &str) -> (res: String)
    requires
        name@.len() > 0,
        !name@.contains('/'),
        !name@.contains('\\'),
        !name@.contains(':'),
        name@ != "."@,
        name@ != ".."@,
    ensures
        !verbatim_path(base@) ==> adjoined(base@, name@, res@),
        verbatim_path(base@) ==> ends_in_component(res@, name@),
{
    std::path::Path::new(base).join(name).to_string_lossy().into_owned()
}

/// The name of the cookie file inside its directory.
pub open spec fn cookie_file_name() -> Seq<char> {
    "cookie_header.txt"@
}

/// Whether `path` is where the cookie is kept for these settings, given
/// the configuration directory found (if any): the cookie file given, else
/// `cookie_header.txt` joined to the configuration directory (of a Windows
/// verbatim directory, only that the file name comes last after a
/// separator), else joined to `.r15-shell`.
pub open spec fn cookie_path_ok(args: Args, config_dir: Option<Seq<char>>, path: Seq<char>) -> bool {
    match args.cookie_file {
        Some(p) => path == p@,
        None => match config_dir {
            Some(d) => if verbatim_path(d) {
                ends_in_component(path, cookie_file_name())
            } else {
                adjoined(d, cookie_file_name(), path)
            },
            None => adjoined(".r15-shell"@, cookie_file_name(), path),
        },
    }
}

/// Whether `text` ends with `suffix`.
pub open spec fn ends_with(text: Seq<char>, suffix: Seq<char>) -> bool {
    suffix.len() <= text.len() && text.skip(text.len() - suffix.len()) == suffix
}

proof fn lemma_ends_with_append(p: Seq<char>, name: Seq<char>)
    ensures
        ends_with(p + name, name),
{
    assert((p + name).skip((p + name).len() - name.len()) =~= name);
}

/// A cookie path for no cookie file given ends with the cookie file's name.
proof fn lemma_joined_ends_with(dir: Option<Seq<char>>, path: Seq<char>)
    requires
        match dir {
            Some(d) => if verbatim_path(d) {
                ends_in_component(path, cookie_file_name())
            } else {
                adjoined(d, cookie_file_name(), path)
            },
            None => adjoined(".r15-shell"@, cookie_file_name(), path),
        },
    ensures
        ends_with(path, cookie_file_name()),
{
    let name = cookie_file_name();
    let base = match dir {
        Some(d) => d,
        None => ".r15-shell"@,
    };
    if dir is Some && verbatim_path(base) {
        if exists|p: Seq<char>| path == p + seq!['/'] + name {
            let p = choose|p: Seq<char>| path == p + seq!['/'] + name;
            lemma_ends_with_append(p + seq!['/'], name);
        } else {
            let p = choose|p: Seq<char>| path == p + seq!['\\'] + name;
            lemma_ends_with_append(p + seq!['\\'], name);
        }
    } else {
        if path == base + name {
            lemma_ends_with_append(base, name);
        } else if path == base + seq!['/'] + name {
            lemma_ends_with_append(base + seq!['/'], name);
        } else {
            lemma_ends_with_append(base + seq!['\\'], name);
        }
    }
}

impl Args {
    /// Where the cookie is kept, given the configuration directory found.
    pub fn cookie_file_path_in(&self, config_dir: Option<String>) -> (res: String)
        ensures
            cookie_path_ok(
                *self,
                match config_dir {
                    Some(d) => Some(d@),
                    None => None,
                },
                res@,
            ),
    {
        match &self.cookie_file {
            Some(path) => path.clone(),
            None => {
                let name = "cookie_header.txt";
                proof {
                    reveal_strlit("cookie_header.txt");
                    assert(!name@.contains('/'));
                    assert(!name@.contains('\\'));
                    assert(!name@.contains(':'));
                    reveal_strlit(".");
                    reveal_strlit("..");
                    assert(name@ != "."@);
                    assert(name@ != ".."@);
                }
                match config_dir {
                    Some(dir) => join_path(dir.as_str(), name),
                    None => {
                        let base = ".r15-shell";
                        proof {
                            reveal_strlit(".r15-shell");
                            assert(base@[1] == 'r');
                            assert(!verbatim_path(base@));
                        }
                        join_path(base, name)
                    },
                }
            },
        }
    }

    /// Where the cookie is kept: the cookie file given, else
    /// `cookie_header.txt` in the user's configuration directory for
    /// `r15-shell`, else in `.r15-shell`.
    pub fn cookie_file_path(&self) -> (res: String)
        ensures
            exists|dir: Option<Seq<char>>| cookie_path_ok(*self, dir, res@),
            self.cookie_file is None ==> ends_with(res@, cookie_file_name()),
    {
        let dir = project_config_dir("com", "rajaasim", "r15-shell");
        let ghost d = match &dir {
            Some(s) => Some(s@),
            None => None::<Seq<char>>,
        };
        let res = self.cookie_file_path_in(dir);
        assert(cookie_path_ok(*self, d, res@));
        proof {
            if self.cookie_file is None {
                lemma_joined_ends_with(d, res@);
            }
        }
        res
    }
}

} // verus!
