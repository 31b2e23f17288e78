//! Configuration values: the listening address and the dictionaries to load.
//!
//! The types here are plain data. Reading them from a file is the caller's
//! business; the one piece of logic is the default short name of a
//! dictionary, taken from the name of its file.

use vstd::prelude::*;
use vstd::string::StrSliceExecFns;

verus! {

/// Where to ask when a dictionary has no match of its own.
#[derive(Debug)]
pub struct FallbackConfig {
    db: String,
    host: String,
    port: u32,
}

impl FallbackConfig {
    pub closed spec fn spec_db(&self) -> Seq<char> {
        self.db@
    }

    pub closed spec fn spec_host(&self) -> Seq<char> {
        self.host@
    }

    pub closed spec fn spec_port(&self) -> u32 {
        self.port
    }

    pub fn new(db: String, host: String, port: u32) -> (r: FallbackConfig)
        ensures
            r.spec_db() == db@,
            r.spec_host() == host@,
            r.spec_port() == port,
    {
        FallbackConfig { db, host, port }
    }

    /// Name of the database on the remote server.
    pub fn db(&self) -> (r: &str)
        ensures
            r@ == self.spec_db(),
    {
        self.db.as_str()
    }

    pub fn host(&self) -> (r: &str)
        ensures
            r@ == self.spec_host(),
    {
        self.host.as_str()
    }

    pub fn port(&self) -> (r: u32)
        ensures
            r == self.spec_port(),
    {
        self.port
    }
}

/// Index at which the last component of `path` begins: just behind the last
/// separator, or 0 if there is none.
pub open spec fn basename_start(path: Seq<char>, separator: char) -> int
    decreases path.len(),
{
    if path.len() == 0 {
        0
    } else if path.last() == separator {
        path.len() as int
    } else {
        basename_start(path.drop_last(), separator)
    }
}

/// Index of the first `.` at or behind `from`, or the length of `s` if there
/// is none.
pub open spec fn first_dot(s: Seq<char>, from: int) -> int
    decreases s.len() - from,
{
    if from >= s.len() {
        s.len() as int
    } else if s[from] == '.' {
        from
    } else {
        first_dot(s, from + 1)
    }
}

/// The file name in `path` up to its first `.`.
pub open spec fn file_stem(path: Seq<char>, separator: char) -> Seq<char> {
    let start = basename_start(path, separator);
    path.subrange(start, first_dot(path, start))
}

/// The path separator of the platform, `std::path::MAIN_SEPARATOR`. Nothing
/// is assumed of it.
#[verifier::external_body]
fn main_separator() -> char {
    std::path::MAIN_SEPARATOR
}

/// The separator at which file names are cut: the backslash where it is the
/// separator of the platform, the slash everywhere else.
pub fn path_separator() -> (r: char)
    ensures
        r == '/' || r == '\\',
{
    if main_separator() == '\\' {
        '\\'
    } else {
        '/'
    }
}

/// Computes `file_stem`.
pub fn stem_of(path: &str, separator: char) -> (r: String)
    ensures
        r@ == file_stem(path@, separator),
{
    let n: usize = path.unicode_len();
    let mut start: usize = 0;
    let mut i: usize = 0;
    while i < n
        invariant
            i <= n,
            n == path@.len(),
            start <= i,
            start == basename_start(path@.take(i as int), separator),
        decreases n - i,
    {
        let c: char = path.get_char(i);
        assert(path@.take(i + 1).drop_last() =~= path@.take(i as int));
        if c == separator {
            start = i + 1;
        }
        i += 1;
    }
    assert(path@.take(n as int) =~= path@);
    let mut end: usize = start;
    while end < n && path.get_char(end) != '.'
        invariant
            start <= end <= n,
            n == path@.len(),
            first_dot(path@, start as int) == first_dot(path@, end as int),
        decreases n - end,
    {
        end += 1;
    }
    path.substring_char(start, end).to_owned()
}

/// One dictionary to load.
#[derive(Debug)]
pub struct DatabaseConfig {
    name: Option<String>,
    short_name: Option<String>,
    path: String,
    fallback: Option<FallbackConfig>,
}

impl DatabaseConfig {
    pub closed spec fn spec_name(&self) -> Option<Seq<char>> {
        match self.name {
            Some(n) => Some(n@),
            None => None,
        }
    }

    pub closed spec fn spec_short_name(&self) -> Option<Seq<char>> {
        match self.short_name {
            Some(n) => Some(n@),
            None => None,
        }
    }

    pub closed spec fn spec_path(&self) -> Seq<char> {
        self.path@
    }

    pub closed spec fn spec_fallback(&self) -> Option<FallbackConfig> {
        self.fallback
    }

    /// The short name on a platform whose path separator is `separator`: the
    /// configured one, or else the file name up to its first `.`.
    pub open spec fn short_name_for(&self, separator: char) -> Seq<char> {
        match self.spec_short_name() {
            Some(n) => n,
            None => file_stem(self.spec_path(), separator),
        }
    }

    /// The long name on such a platform: the configured one, or else the
    /// short name.
    pub open spec fn name_for(&self, separator: char) -> Seq<char> {
        match self.spec_name() {
            Some(n) => n,
            None => self.short_name_for(separator),
        }
    }

    pub fn new(
        name: Option<String>,
        short_name: Option<String>,
        path: String,
        fallback: Option<FallbackConfig>,
    ) -> (r: DatabaseConfig)
        ensures
            r.spec_name() == (match name {
                Some(n) => Some(n@),
                None => None,
            }),
            r.spec_short_name() == (match short_name {
                Some(n) => Some(n@),
                None => None,
            }),
            r.spec_path() == path@,
            r.spec_fallback() == fallback,
    {
        DatabaseConfig { name, short_name, path, fallback }
    }

    /// The long name as configured, if there is one.
    pub fn configured_name(&self) -> (r: Option<&String>)
        ensures
            self.spec_name() == (match r {
                Some(n) => Some(n@),
                None => None,
            }),
    {
        self.name.as_ref()
    }

    /// The short name as configured, if there is one.
    pub fn configured_short_name(&self) -> (r: Option<&String>)
        ensures
            self.spec_short_name() == (match r {
                Some(n) => Some(n@),
                None => None,
            }),
    {
        self.short_name.as_ref()
    }

    /// The short name, with the path separator given.
    pub fn short_name_with(&self, separator: char) -> (r: String)
        ensures
            r@ == self.short_name_for(separator),
    {
        match &self.short_name {
            Some(n) => n.clone(),
            None => stem_of(self.path.as_str(), separator),
        }
    }

    /// The long name, with the path separator given.
    pub fn name_with(&self, separator: char) -> (r: String)
        ensures
            r@ == self.name_for(separator),
    {
        match &self.name {
            Some(n) => n.clone(),
            None => self.short_name_with(separator),
        }
    }

    /// The human-readable name: the configured one, or else the short name.
    pub fn name(&self) -> (r: String)
        ensures
            r@ == self.name_for('/') || r@ == self.name_for('\\'),
            self.spec_name() matches Some(n) ==> r@ == n,
            self.spec_name() is None ==> (self.spec_short_name() matches Some(n) ==> r@ == n),
    {
        self.name_with(path_separator())
    }

    /// The name used on the wire: the configured one, or else the name of the
    /// file up to its first `.`. The file name begins behind the last
    /// backslash of the path where the backslash separates paths, and behind
    /// the last slash everywhere else.
    pub fn short_name(&self) -> (r: String)
        ensures
            r@ == self.short_name_for('/') || r@ == self.short_name_for('\\'),
            self.spec_short_name() matches Some(n) ==> r@ == n,
    {
        self.short_name_with(path_separator())
    }

    pub fn path(&self) -> (r: &str)
        ensures
            r@ == self.spec_path(),
    {
        self.path.as_str()
    }

    /// Whether the file is gzip-compressed: its path ends in `z`.
    pub fn is_gzip(&self) -> (r: bool)
        ensures
            r == (self.spec_path().len() > 0 && self.spec_path().last() == 'z'),
    {
        let n: usize = self.path.as_str().unicode_len();
        n > 0 && self.path.as_str().get_char(n - 1) == 'z'
    }

    pub fn fallback(&self) -> (r: Option<&FallbackConfig>)
        ensures
            r == (match self.spec_fallback() {
                Some(f) => Some(&f),
                None => None,
            }),
    {
        self.fallback.as_ref()
    }
}

/// The address to listen on.
#[derive(Debug)]
pub struct ServerConfig {
    host: String,
    port: u32,
}

impl ServerConfig {
    pub closed spec fn spec_host(&self) -> Seq<char> {
        self.host@
    }

    pub closed spec fn spec_port(&self) -> u32 {
        self.port
    }

    pub fn new(host: String, port: u32) -> (r: ServerConfig)
        ensures
            r.spec_host() == host@,
            r.spec_port() == port,
    {
        ServerConfig { host, port }
    }

    pub fn host(&self) -> (r: &str)
        ensures
            r@ == self.spec_host(),
    {
        self.host.as_str()
    }

    pub fn port(&self) -> (r: u32)
        ensures
            r == self.spec_port(),
    {
        self.port
    }
}

/// The whole configuration.
#[derive(Debug)]
pub struct Config {
    server: ServerConfig,
    databases: Vec<DatabaseConfig>,
}

impl Config {
    pub closed spec fn spec_server(&self) -> ServerConfig {
        self.server
    }

    pub closed spec fn spec_databases(&self) -> Seq<DatabaseConfig> {
        self.databases@
    }

    pub fn new(server: ServerConfig, databases: Vec<DatabaseConfig>) -> (r: Config)
        ensures
            r.spec_server() == server,
            r.spec_databases() == databases@,
    {
        Config { server, databases }
    }

    pub fn host(&self) -> (r: &str)
        ensures
            r@ == self.spec_server().spec_host(),
    {
        self.server.host()
    }

    pub fn port(&self) -> (r: u32)
        ensures
            r == self.spec_server().spec_port(),
    {
        self.server.port()
    }

    pub fn databases(&self) -> (r: &Vec<DatabaseConfig>)
        ensures
            r@ == self.spec_databases(),
    {
        &self.databases
    }
}

} // verus!
