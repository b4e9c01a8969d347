//! Where a puzzle's input comes from: the cache entry that is tried first,
//! the download that follows a miss, and the order in which the two are
//! used. Nothing here reads a file or opens a connection: each stage hands
//! out what is to be done and takes back what came of it.

use crate::decimal::{decimal, decimal_of};
use crate::error::AocError;
use crate::text::push_chars;
use vstd::prelude::*;
use vstd::string::*;

verus! {

/// The site that serves the inputs.
pub const BASE_URI: &'static str = "https://adventofcode.com";

/// The directory under which inputs are kept, unless another is configured.
pub const CACHE_LOCATION: &'static str = "./.input";

/// The variable of the environment that holds the session credential.
pub const SESSION_VARIABLE: &'static str = "SESSION";

/// The header of a request that carries the session cookie.
pub const COOKIE_HEADER: &'static str = "Cookie";

/// The address of the input of `day` in `year`, below `base`.
pub open spec fn uri_text(base: Seq<char>, year: nat, day: nat) -> Seq<char> {
    base + "/"@ + decimal(year) + "/day/"@ + decimal(day) + "/input"@
}

/// The directory that keeps the inputs of `year`, below `root`.
pub open spec fn directory_text(root: Seq<char>, year: nat) -> Seq<char> {
    root + "/"@ + decimal(year)
}

/// The file that keeps the input of `day` in `year`, below `root`: one
/// file for each day, in the directory of its year.
pub open spec fn path_text(root: Seq<char>, year: nat, day: nat) -> Seq<char> {
    directory_text(root, year) + "/"@ + decimal(day) + ".txt"@
}

/// The cookie that presents the session credential.
pub open spec fn cookie_text(session: Seq<char>) -> Seq<char> {
    "session="@ + session
}

/// Appends the shortest decimal numeral for `n` to `out`.
fn push_number(out: &mut String, n: usize)
    ensures
        final(out)@ == old(out)@ + decimal(n as nat),
{
    let digits: Vec<char> = decimal_of(n);
    push_chars(out, digits.as_slice());
}

/// The address from which the input of `day` in `year` is downloaded.
pub fn request_uri(year: u16, day: u8) -> (uri: String)
    ensures
        uri@ == uri_text(BASE_URI@, year as nat, day as nat),
{
    let mut uri: String = String::from_str(BASE_URI);
    uri.append("/");
    push_number(&mut uri, year as usize);
    uri.append("/day/");
    push_number(&mut uri, day as usize);
    uri.append("/input");
    uri
}

/// The directory below `root` that keeps the inputs of `year`.
pub fn cache_directory_in(root: &str, year: u16) -> (directory: String)
    ensures
        directory@ == directory_text(root@, year as nat),
{
    let mut directory: String = String::from_str(root);
    directory.append("/");
    push_number(&mut directory, year as usize);
    directory
}

/// The file below `root` that keeps the input of `day` in `year`.
pub fn cached_path_in(root: &str, year: u16, day: u8) -> (path: String)
    ensures
        path@ == path_text(root@, year as nat, day as nat),
{
    let mut path: String = cache_directory_in(root, year);
    path.append("/");
    push_number(&mut path, day as usize);
    path.append(".txt");
    path
}

/// The file that keeps the input of `day` in `year`. It depends on the
/// two numbers alone.
pub fn cached_path(year: u16, day: u8) -> (path: String)
    ensures
        path@ == path_text(CACHE_LOCATION@, year as nat, day as nat),
{
    cached_path_in(CACHE_LOCATION, year, day)
}

/// The cookie header that presents `session`.
pub fn session_cookie(session: &str) -> (cookie: String)
    ensures
        cookie@ == cookie_text(session@),
{
    let mut cookie: String = String::from_str("session=");
    cookie.append(session);
    cookie
}

/// What a run is configured with.
pub struct Config {
    /// The credential that the site asks for.
    pub session: String,
    /// The directory under which inputs are kept.
    pub cache_root: String,
}

impl Config {
    /// A configuration from what the surroundings hold. The credential is
    /// required: without one there is no configuration, and so nothing that
    /// a retrieval could start from. The cache directory has a default.
    pub fn new(session: Option<String>, cache_root: Option<String>) -> (config: Option<Config>)
        ensures
            session.is_none() <==> config.is_none(),
            config matches Some(c) ==> {
                &&& Some(c.session) == session
                &&& cache_root matches Some(root) ==> c.cache_root == root
                &&& cache_root.is_none() ==> c.cache_root@ == CACHE_LOCATION@
            },
    {
        match session {
            None => None,
            Some(session) => {
                let cache_root: String = match cache_root {
                    Some(root) => root,
                    None => String::from_str(CACHE_LOCATION),
                };
                Some(Config { session, cache_root })
            },
        }
    }
}

/// The text that a read brought, if it brought any.
pub open spec fn read_text(read: Result<String, std::io::Error>) -> Option<Seq<char>> {
    match read {
        Ok(text) => Some(text@),
        Err(_) => None,
    }
}

/// What a cache entry counts for: an entry that is absent, unreadable or
/// empty counts for nothing, any other for its whole text.
pub open spec fn entry_text(stored: Option<Seq<char>>) -> Option<Seq<char>> {
    match stored {
        Some(text) => if text.len() > 0 {
            Some(text)
        } else {
            None
        },
        None => None,
    }
}

/// What a read of the cache file comes to. A failed read is handed on as
/// it is; an empty file is no entry; any other text is the entry, verbatim.
pub fn load_from_cache(read: Result<String, std::io::Error>) -> (entry: Result<
    Option<String>,
    std::io::Error,
>)
    ensures
        match read {
            Ok(text) => entry matches Ok(found) && found == if text@.len() > 0 {
                Some(text)
            } else {
                None
            },
            Err(error) => entry matches Err(e) && e == error,
        },
        entry matches Ok(Some(found)) ==> found@.len() > 0,
{
    match read {
        Ok(text) => {
            if text.as_str().is_empty() {
                Ok(None)
            } else {
                Ok(Some(text))
            }
        },
        Err(error) => Err(error),
    }
}

/// A retrieval that waits for its cache entry to be read.
pub struct Lookup {
    /// The year of the puzzle.
    pub year: u16,
    /// The day of the puzzle.
    pub day: u8,
    /// The credential to present if the input has to be downloaded.
    pub session: String,
    /// The directory under which inputs are kept.
    pub cache_root: String,
}

/// A retrieval that waits for its download to end.
pub struct Download {
    /// The year of the puzzle.
    pub year: u16,
    /// The day of the puzzle.
    pub day: u8,
    /// The directory under which inputs are kept.
    pub cache_root: String,
}

/// What follows the reading of the cache entry.
pub enum AfterLookup {
    /// The cache held the input. The retrieval ends with `text`, and
    /// nothing is asked of the network.
    Hit { text: String },
    /// The cache held nothing. One request is to be made: a `GET` for
    /// `uri` with `cookie` under the header `COOKIE_HEADER`, whose outcome
    /// goes to `next`.
    Miss { uri: String, cookie: String, next: Download },
}

/// What follows the download.
pub enum AfterDownload {
    /// The download failed, and the retrieval with it.
    Failed { error: AocError },
    /// The download brought `text`. It is to be written to `path`, in place
    /// of whatever is there, and the retrieval ends with it.
    Fetched { path: String, text: String },
}

impl Lookup {
    /// Starts the retrieval of the input of `day` in `year`.
    pub fn new(config: &Config, year: u16, day: u8) -> (stage: Lookup)
        ensures
            stage.year == year,
            stage.day == day,
            stage.session == config.session,
            stage.cache_root == config.cache_root,
    {
        Lookup { year, day, session: config.session.clone(), cache_root: config.cache_root.clone() }
    }

    /// The directory that has to be there before the cache file is read:
    /// the one that holds the file.
    pub fn directory(&self) -> (directory: String)
        ensures
            directory@ == directory_text(self.cache_root@, self.year as nat),
    {
        cache_directory_in(self.cache_root.as_str(), self.year)
    }

    /// The file whose text this stage waits for.
    pub fn path(&self) -> (path: String)
        ensures
            path@ == path_text(self.cache_root@, self.year as nat, self.day as nat),
    {
        cached_path_in(self.cache_root.as_str(), self.year, self.day)
    }

    /// Takes what reading the cache file gave. An entry with text ends the
    /// retrieval; anything else, a failed read included, leads to the one
    /// download.
    pub fn resolve(self, read: Result<String, std::io::Error>) -> (after: AfterLookup)
        ensures
            after matches AfterLookup::Hit { text } ==> text@.len() > 0,
            entry_text(read_text(read)).is_some() ==> after == (AfterLookup::Hit {
                text: read->Ok_0,
            }),
            entry_text(read_text(read)).is_none() ==> (after matches AfterLookup::Miss {
                uri,
                cookie,
                next,
            } && {
                &&& uri@ == uri_text(BASE_URI@, self.year as nat, self.day as nat)
                &&& cookie@ == cookie_text(self.session@)
                &&& next == Download {
                    year: self.year,
                    day: self.day,
                    cache_root: self.cache_root,
                }
            }),
    {
        match load_from_cache(read) {
            Ok(Some(text)) => AfterLookup::Hit { text },
            _ => AfterLookup::Miss {
                uri: request_uri(self.year, self.day),
                cookie: session_cookie(self.session.as_str()),
                next: Download { year: self.year, day: self.day, cache_root: self.cache_root },
            },
        }
    }
}

impl Download {
    /// The file that the downloaded text is written to.
    pub fn path(&self) -> (path: String)
        ensures
            path@ == path_text(self.cache_root@, self.year as nat, self.day as nat),
    {
        cached_path_in(self.cache_root.as_str(), self.year, self.day)
    }

    /// Takes what the download gave. A text is to be cached as it came and
    /// ends the retrieval; a failure ends it at once, with no second try.
    pub fn resolve(self, outcome: Result<String, ureq::Error>) -> (after: AfterDownload)
        ensures
            match outcome {
                Ok(body) => after matches AfterDownload::Fetched { path, text } && text == body
                    && path@ == path_text(self.cache_root@, self.year as nat, self.day as nat),
                Err(error) => after == (AfterDownload::Failed {
                    error: AocError::Network(error),
                }),
            },
    {
        match outcome {
            Ok(text) => AfterDownload::Fetched { path: self.path(), text },
            Err(error) => AfterDownload::Failed { error: AocError::from(error) },
        }
    }
}

} // verus!
