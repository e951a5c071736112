//! Global configuration.
//!
//! The configuration file lives at `$XDG_CONFIG_HOME/morg/config.toml`
//! (typically `~/.config/morg/config.toml`); paths are kept as text.

use vstd::prelude::*;

use crate::text::{append_chars, chars_of, string_of};

verus! {

/// `dirs::home_dir`, as text.  What comes back depends on the environment,
/// so nothing is stated of it.
#[verifier::external_body]
fn home_dir_text() -> (r: Option<String>) {
    dirs::home_dir().map(|p| p.to_string_lossy().into_owned())
}

/// `dirs::config_dir`, as text.  What comes back depends on the
/// environment, so nothing is stated of it.
#[verifier::external_body]
fn config_dir_text() -> (r: Option<String>) {
    dirs::config_dir().map(|p| p.to_string_lossy().into_owned())
}

/// `Path::join` on relative or absolute paths written as text: an absolute
/// `rel` replaces `base`; otherwise `rel` is appended after a `/`.
pub open spec fn joined_path(base: Seq<char>, rel: Seq<char>) -> Seq<char> {
    if rel.len() > 0 && rel[0] == '/' {
        rel
    } else if base.len() == 0 {
        rel
    } else if base.last() == '/' {
        base + rel
    } else {
        base + "/"@ + rel
    }
}

/// Joins two paths written as text.
pub fn join_path(base: &str, rel: &str) -> (r: String)
    ensures
        r@ == joined_path(base@, rel@),
{
    let b = chars_of(base);
    let r = chars_of(rel);
    if r.len() > 0 && r[0] == '/' {
        string_of(&r)
    } else if b.len() == 0 {
        string_of(&r)
    } else if b[b.len() - 1] == '/' {
        let mut out = b;
        append_chars(&mut out, &r);
        string_of(&out)
    } else {
        proof {
            reveal_strlit("/");
        }
        let mut out = b;
        out.push('/');
        append_chars(&mut out, &r);
        assert(out@ =~= base@ + "/"@ + rel@);
        string_of(&out)
    }
}

/// A path with a leading `~` replaced by `home`: `~` alone becomes `home`,
/// `~/rest` becomes `home` joined with `rest`; other paths, and all paths
/// when there is no home directory, are unchanged.
pub open spec fn tilde_expanded(path: Seq<char>, home: Option<Seq<char>>) -> Seq<char> {
    match home {
        None => path,
        Some(h) => if path == "~"@ {
            h
        } else if path.len() >= 2 && path[0] == '~' && path[1] == '/' {
            joined_path(h, path.skip(2))
        } else {
            path
        },
    }
}

/// Replaces a leading `~` by the home directory `home`.
pub fn expand_tilde(path: &str, home: Option<&str>) -> (r: String)
    ensures
        r@ == tilde_expanded(
            path@,
            match home {
                Some(h) => Some(h@),
                None => None,
            },
        ),
{
    let p = chars_of(path);
    match home {
        None => string_of(&p),
        Some(h) => {
            proof {
                reveal_strlit("~");
            }
            if p.len() == 1 && p[0] == '~' {
                assert(p@ =~= "~"@);
                string_of(&chars_of(h))
            } else if p.len() >= 2 && p[0] == '~' && p[1] == '/' {
                let rest = string_of(&crate::text::skip(&p, 2));
                join_path(h, rest.as_str())
            } else {
                assert(p@ != "~"@);
                string_of(&p)
            }
        },
    }
}

/// The top-level configuration.
pub struct Config {
    /// Root directory for morg files: the default search path of all
    /// commands.
    pub root: String,
    pub diary: DiaryConfig,
    pub capture: CaptureConfig,
}

/// Diary configuration.
pub struct DiaryConfig {
    /// Where diary notes are stored; `<root>/diary` when unset.
    pub directory: Option<String>,
    /// The daily note template; `<diary directory>/daily_note.template`
    /// when unset.
    pub template: Option<String>,
    /// File name of the active note.
    pub today_file: String,
    /// Archive directory pattern with `{year}`, `{month}`, `{day}`.
    pub archive_pattern: String,
    /// Archive file name pattern.
    pub archive_filename: String,
    /// Whether unchecked todos move on to the next note.
    pub carry_todos: bool,
}

/// Capture configuration.
pub struct CaptureConfig {
    /// The capture templates file; `$XDG_CONFIG_HOME/morg/capture.yaml` when
    /// unset.
    pub templates_file: Option<String>,
}

impl Default for DiaryConfig {
    fn default() -> (d: Self)
        ensures
            d.directory is None,
            d.template is None,
            d.today_file@ == "today.md"@,
            d.archive_pattern@ == "{year}/{month}"@,
            d.archive_filename@ == "{day}.md"@,
            d.carry_todos,
    {
        DiaryConfig {
            directory: None,
            template: None,
            today_file: string_of(&chars_of("today.md")),
            archive_pattern: string_of(&chars_of("{year}/{month}")),
            archive_filename: string_of(&chars_of("{day}.md")),
            carry_todos: true,
        }
    }
}

impl Default for CaptureConfig {
    fn default() -> (c: Self)
        ensures
            c.templates_file is None,
    {
        CaptureConfig { templates_file: None }
    }
}

/// The default root: `.morg` in the home directory `home` (or in `.` when
/// there is none).
pub open spec fn default_root_of(home: Option<String>) -> Seq<char> {
    joined_path(
        match home {
            Some(h) => h@,
            None => "."@,
        },
        ".morg"@,
    )
}

impl Default for Config {
    fn default() -> (c: Self)
        ensures
            exists|h: Option<String>| c.root@ == default_root_of(h),
            c.diary.directory is None,
            c.diary.template is None,
            c.diary.today_file@ == "today.md"@,
            c.diary.archive_pattern@ == "{year}/{month}"@,
            c.diary.archive_filename@ == "{day}.md"@,
            c.diary.carry_todos,
            c.capture.templates_file is None,
    {
        let home = home_dir_text();
        let root = match &home {
            Some(h) => join_path(h.as_str(), ".morg"),
            None => join_path(".", ".morg"),
        };
        assert(root@ == default_root_of(home));
        Config { root, diary: DiaryConfig::default(), capture: CaptureConfig::default() }
    }
}

impl Config {
    /// The configured diary directory, or `<root>/diary`.
    pub open spec fn spec_diary_dir(&self) -> Seq<char> {
        match self.diary.directory {
            Some(d) => d@,
            None => joined_path(self.root@, "diary"@),
        }
    }

    /// The diary directory: the configured one, or `<root>/diary`.
    pub fn diary_dir(&self) -> (p: String)
        ensures
            p@ == self.spec_diary_dir(),
    {
        match &self.diary.directory {
            Some(d) => d.clone(),
            None => join_path(self.root.as_str(), "diary"),
        }
    }

    /// The daily note template: the configured one, or
    /// `<diary dir>/daily_note.template`.
    pub fn diary_template(&self) -> (p: String)
        ensures
            p@ == match self.diary.template {
                Some(t) => t@,
                None => joined_path(self.spec_diary_dir(), "daily_note.template"@),
            },
    {
        match &self.diary.template {
            Some(t) => t.clone(),
            None => join_path(self.diary_dir().as_str(), "daily_note.template"),
        }
    }

    /// The active note: `<diary dir>/<today file>`.
    pub fn diary_today(&self) -> (p: String)
        ensures
            p@ == joined_path(self.spec_diary_dir(), self.diary.today_file@),
    {
        join_path(self.diary_dir().as_str(), self.diary.today_file.as_str())
    }

    /// Expands a leading `~` in every path field, with `home` as the home
    /// directory.
    pub fn resolve_tildes_with(&mut self, home: Option<&str>)
        ensures
            tildes_resolved(
                *old(self),
                *final(self),
                match home {
                    Some(x) => Some(x@),
                    None => None,
                },
            ),
    {
        self.root = expand_tilde(self.root.as_str(), home);
        let d = match &self.diary.directory {
            Some(p) => Some(expand_tilde(p.as_str(), home)),
            None => None,
        };
        self.diary.directory = d;
        let t = match &self.diary.template {
            Some(p) => Some(expand_tilde(p.as_str(), home)),
            None => None,
        };
        self.diary.template = t;
        let c = match &self.capture.templates_file {
            Some(p) => Some(expand_tilde(p.as_str(), home)),
            None => None,
        };
        self.capture.templates_file = c;
    }

    /// Expands a leading `~` in every path field with the user's home
    /// directory.  Which home directory that is depends on the environment
    /// (with none, the paths stay as they are).
    pub fn resolve_tildes(&mut self)
        ensures
            exists|h: Option<Seq<char>>| tildes_resolved(*old(self), *final(self), h),
    {
        let home = home_dir_text();
        match &home {
            Some(h) => {
                self.resolve_tildes_with(Some(h.as_str()));
                assert(tildes_resolved(*old(self), *self, Some(h@)));
            },
            None => {
                self.resolve_tildes_with(None);
                assert(tildes_resolved(*old(self), *self, None));
            },
        }
    }
}

/// `b` is the configuration `a` with a leading `~` of each path field
/// replaced by the home directory `home`, the other fields kept.
pub open spec fn tildes_resolved(a: Config, b: Config, home: Option<Seq<char>>) -> bool {
    &&& b.root@ == tilde_expanded(a.root@, home)
    &&& (match a.diary.directory {
        Some(p) => b.diary.directory matches Some(q) && q@ == tilde_expanded(p@, home),
        None => b.diary.directory is None,
    })
    &&& (match a.diary.template {
        Some(p) => b.diary.template matches Some(q) && q@ == tilde_expanded(p@, home),
        None => b.diary.template is None,
    })
    &&& (match a.capture.templates_file {
        Some(p) => b.capture.templates_file matches Some(q) && q@ == tilde_expanded(p@, home),
        None => b.capture.templates_file is None,
    })
    &&& b.diary.today_file == a.diary.today_file
    &&& b.diary.archive_pattern == a.diary.archive_pattern
    &&& b.diary.archive_filename == a.diary.archive_filename
    &&& b.diary.carry_todos == a.diary.carry_todos
}

/// `morg` in the configuration directory `d` (in `~/.config` when there is
/// none).
pub open spec fn config_dir_of(d: Option<Seq<char>>) -> Seq<char> {
    joined_path(
        match d {
            Some(x) => x,
            None => "~/.config"@,
        },
        "morg"@,
    )
}

/// The configuration file in the configuration directory `d` (see
/// [`config_dir_of`]).
pub open spec fn config_path_of(d: Option<Seq<char>>) -> Seq<char> {
    joined_path(config_dir_of(d), "config.toml"@)
}

pub open spec fn opt_str_view(d: Option<&str>) -> Option<Seq<char>> {
    match d {
        Some(x) => Some(x@),
        None => None,
    }
}

pub open spec fn opt_string_view(d: Option<String>) -> Option<Seq<char>> {
    match d {
        Some(x) => Some(x@),
        None => None,
    }
}

/// `morg` in the configuration directory `d`, or in `~/.config` when there
/// is none.
pub fn config_dir_in(d: Option<&str>) -> (p: String)
    ensures
        p@ == config_dir_of(opt_str_view(d)),
{
    match d {
        Some(x) => join_path(x, "morg"),
        None => join_path("~/.config", "morg"),
    }
}

/// The configuration file `config.toml` under [`config_dir_in`].
pub fn config_path_in(d: Option<&str>) -> (p: String)
    ensures
        p@ == config_path_of(opt_str_view(d)),
{
    let dir = config_dir_in(d);
    join_path(dir.as_str(), "config.toml")
}

fn as_str_opt(d: &Option<String>) -> (r: Option<&str>)
    ensures
        opt_str_view(r) == opt_string_view(*d),
{
    match d {
        Some(x) => Some(x.as_str()),
        None => None,
    }
}

/// The configuration directory: `morg` in the user's configuration
/// directory as the platform reports it (or in `~/.config` when it reports
/// none).  Which directory that is depends on the environment.
pub fn config_dir() -> (p: String)
    ensures
        exists|d: Option<Seq<char>>| p@ == config_dir_of(d),
{
    let d = config_dir_text();
    config_dir_in(as_str_opt(&d))
}

/// The configuration file: `config.toml` in [`config_dir`].
pub fn config_path() -> (p: String)
    ensures
        exists|d: Option<Seq<char>>| p@ == config_path_of(d),
{
    let d = config_dir_text();
    config_path_in(as_str_opt(&d))
}

} // verus!
