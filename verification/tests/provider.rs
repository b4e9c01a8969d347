use std::collections::HashMap;
use std::path::PathBuf;

use aoc2025::driver::{part_one_line, part_two_line, start};
use aoc2025::error::AocError;
use aoc2025::provider::{
    cache_directory_in, cached_path, cached_path_in, load_from_cache, request_uri,
    session_cookie, AfterDownload, AfterLookup, Config, Lookup, BASE_URI, CACHE_LOCATION,
    COOKIE_HEADER, SESSION_VARIABLE,
};
use aoc2025::selector::Part;

/// A cache and a network that keep count of what is asked of them.
struct Surroundings {
    files: HashMap<String, String>,
    served: Option<String>,
    reads: usize,
    writes: usize,
    fetches: usize,
    last_uri: String,
    last_cookie: String,
}

impl Surroundings {
    fn new(served: Option<&str>) -> Self {
        Surroundings {
            files: HashMap::new(),
            served: served.map(String::from),
            reads: 0,
            writes: 0,
            fetches: 0,
            last_uri: String::new(),
            last_cookie: String::new(),
        }
    }

    fn read(&mut self, path: &str) -> Result<String, std::io::Error> {
        self.reads += 1;
        match self.files.get(path) {
            Some(text) => Ok(text.clone()),
            None => Err(std::io::Error::from(std::io::ErrorKind::NotFound)),
        }
    }

    fn fetch(&mut self, uri: &str, cookie: &str) -> Result<String, ureq::Error> {
        self.fetches += 1;
        self.last_uri = String::from(uri);
        self.last_cookie = String::from(cookie);
        match &self.served {
            Some(text) => Ok(text.clone()),
            None => Err(ureq::Error::StatusCode(500)),
        }
    }

    fn obtain(&mut self, year: u16, day: u8, session: &str) -> Result<String, AocError> {
        let config = Config::new(Some(String::from(session)), None).unwrap();
        let lookup = Lookup::new(&config, year, day);
        let read = self.read(&lookup.path());
        match lookup.resolve(read) {
            AfterLookup::Hit { text } => Ok(text),
            AfterLookup::Miss { uri, cookie, next } => {
                let outcome = self.fetch(&uri, &cookie);
                match next.resolve(outcome) {
                    AfterDownload::Failed { error } => Err(error),
                    AfterDownload::Fetched { path, text } => {
                        self.writes += 1;
                        self.files.insert(path, text.clone());
                        Ok(text)
                    }
                }
            }
        }
    }
}

#[test]
fn uri_path_works() {
    let uri = request_uri(2025, 1);
    assert_eq!(uri, "https://adventofcode.com/2025/day/1/input");
}

#[test]
fn cache_path_works() {
    let uri = PathBuf::from(cached_path(2025, 1));
    assert_eq!(uri, PathBuf::from("./.input/2025/1.txt"));
}

#[test]
fn parts_from_str() {
    let strs = vec![
        "1", "2", "3", "one", "two", "three", "both", "One", "Two", "Three",
    ];
    let results = vec![
        Part::One,
        Part::Two,
        Part::Both,
        Part::One,
        Part::Two,
        Part::Both,
        Part::Both,
        Part::One,
        Part::Two,
        Part::Both,
    ];
    assert_eq!(
        strs.iter().map(|s| Part::from(*s)).collect::<Vec<Part>>(),
        results
    );
}

#[test]
fn parts_from_string() {
    let strs = vec![
        "1", "2", "3", "one", "two", "three", "both", "One", "Two", "Three",
    ];
    let strings: Vec<String> = strs.into_iter().map(String::from).collect();
    let results = vec![
        Part::One,
        Part::Two,
        Part::Both,
        Part::One,
        Part::Two,
        Part::Both,
        Part::Both,
        Part::One,
        Part::Two,
        Part::Both,
    ];
    assert_eq!(
        strings
            .iter()
            .map(|s| Part::from(s.as_str()))
            .collect::<Vec<Part>>(),
        results
    );
}

#[test]
fn selector_scenarios() {
    assert_eq!(Part::from("1"), Part::One);
    assert_eq!(Part::from("two"), Part::Two);
    assert_eq!(Part::from("xyz"), Part::Both);
    assert_eq!(Part::from(""), Part::Both);
}

#[test]
fn selector_accepts_each_listed_token() {
    for token in ["1", "01", "one", "One"] {
        assert_eq!(Part::from(token), Part::One);
    }
    for token in ["2", "02", "two", "Two"] {
        assert_eq!(Part::from(token), Part::Two);
    }
}

#[test]
fn selector_match_is_literal() {
    for token in ["ONE", "oNe", " 1", "1 ", "001", "11", "first", "TWO", "2\n", "0", "12", "\u{ff11}"] {
        assert_eq!(Part::from(token), Part::Both);
    }
}

#[test]
fn selection_decides_what_runs() {
    assert!(Part::One.runs_first());
    assert!(!Part::One.runs_second());
    assert!(!Part::Two.runs_first());
    assert!(Part::Two.runs_second());
    assert!(Part::Both.runs_first());
    assert!(Part::Both.runs_second());
}

#[test]
fn paths_and_addresses_are_written_in_decimal() {
    assert_eq!(request_uri(0, 0), "https://adventofcode.com/0/day/0/input");
    assert_eq!(
        request_uri(65535, 255),
        "https://adventofcode.com/65535/day/255/input"
    );
    assert_eq!(request_uri(2015, 25), "https://adventofcode.com/2015/day/25/input");
    assert_eq!(cached_path(0, 0), "./.input/0/0.txt");
    assert_eq!(cached_path(65535, 255), "./.input/65535/255.txt");
    assert_eq!(cached_path(2024, 10), "./.input/2024/10.txt");
    assert_eq!(cached_path_in("/var/cache", 2025, 31), "/var/cache/2025/31.txt");
}

#[test]
fn same_identifier_same_path() {
    for year in [0u16, 9, 10, 2025, 65535] {
        for day in [0u8, 1, 9, 10, 25, 31, 255] {
            assert_eq!(cached_path(year, day), cached_path(year, day));
        }
    }
    assert_ne!(cached_path(2025, 1), cached_path(2025, 11));
    assert_ne!(cached_path(202, 51), cached_path(2025, 1));
}

#[test]
fn cache_file_lies_in_the_directory_of_its_year() {
    assert_eq!(cache_directory_in("./.input", 2025), "./.input/2025");
    assert_eq!(cache_directory_in("", 7), "/7");
    let config = Config::new(Some(String::from("s")), None).unwrap();
    let lookup = Lookup::new(&config, 2025, 1);
    assert_eq!(lookup.directory(), "./.input/2025");
    assert_eq!(
        PathBuf::from(lookup.path()).parent(),
        Some(PathBuf::from(lookup.directory()).as_path())
    );
}

#[test]
fn names_that_the_surroundings_go_by() {
    assert_eq!(BASE_URI, "https://adventofcode.com");
    assert_eq!(CACHE_LOCATION, "./.input");
    assert_eq!(SESSION_VARIABLE, "SESSION");
    assert_eq!(COOKIE_HEADER, "Cookie");
}

#[test]
fn cookie_presents_the_session() {
    assert_eq!(session_cookie("abc123"), "session=abc123");
    assert_eq!(session_cookie(""), "session=");
}

#[test]
fn cache_entry_is_returned_verbatim() {
    let entry = load_from_cache(Ok(String::from("line one\nline two\n"))).unwrap();
    assert_eq!(entry, Some(String::from("line one\nline two\n")));
}

#[test]
fn empty_cache_entry_is_no_entry() {
    let entry = load_from_cache(Ok(String::new())).unwrap();
    assert_eq!(entry, None);
}

#[test]
fn failed_read_is_handed_on() {
    let failure = std::io::Error::from(std::io::ErrorKind::PermissionDenied);
    let entry = load_from_cache(Err(failure));
    assert_eq!(
        entry.unwrap_err().kind(),
        std::io::ErrorKind::PermissionDenied
    );
}

#[test]
fn miss_then_download_fills_the_cache() {
    let mut world = Surroundings::new(Some("abc"));
    assert_eq!(world.obtain(2025, 3, "secret").unwrap(), "abc");
    assert_eq!(world.fetches, 1);
    assert_eq!(world.writes, 1);
    assert_eq!(world.last_uri, "https://adventofcode.com/2025/day/3/input");
    assert_eq!(world.last_cookie, "session=secret");
    assert_eq!(
        world.files.get("./.input/2025/3.txt"),
        Some(&String::from("abc"))
    );
    assert_eq!(world.obtain(2025, 3, "secret").unwrap(), "abc");
    assert_eq!(world.fetches, 1);
    assert_eq!(world.writes, 1);
}

#[test]
fn hit_makes_no_download() {
    let mut world = Surroundings::new(Some("from the network"));
    world
        .files
        .insert(String::from("./.input/2025/4.txt"), String::from("xyz"));
    assert_eq!(world.obtain(2025, 4, "secret").unwrap(), "xyz");
    assert_eq!(world.fetches, 0);
    assert_eq!(world.writes, 0);
    assert_eq!(world.reads, 1);
}

#[test]
fn empty_entry_leads_to_download() {
    let mut world = Surroundings::new(Some("fresh"));
    world
        .files
        .insert(String::from("./.input/2025/5.txt"), String::new());
    assert_eq!(world.obtain(2025, 5, "secret").unwrap(), "fresh");
    assert_eq!(world.fetches, 1);
    assert_eq!(
        world.files.get("./.input/2025/5.txt"),
        Some(&String::from("fresh"))
    );
}

#[test]
fn repeated_lookups_return_the_same_text() {
    let mut world = Surroundings::new(None);
    world
        .files
        .insert(String::from("./.input/2025/6.txt"), String::from("kept\n"));
    let before = world.files.clone();
    for _ in 0..3 {
        assert_eq!(world.obtain(2025, 6, "secret").unwrap(), "kept\n");
    }
    assert_eq!(world.files, before);
    assert_eq!(world.fetches, 0);
    assert_eq!(world.writes, 0);
}

#[test]
fn empty_download_is_cached_but_never_found() {
    let mut world = Surroundings::new(Some(""));
    assert_eq!(world.obtain(2025, 7, "secret").unwrap(), "");
    assert_eq!(world.files.get("./.input/2025/7.txt"), Some(&String::new()));
    assert_eq!(world.obtain(2025, 7, "secret").unwrap(), "");
    assert_eq!(world.fetches, 2);
}

#[test]
fn failed_download_fails_the_retrieval() {
    let mut world = Surroundings::new(None);
    let failure = world.obtain(2025, 8, "secret").unwrap_err();
    assert!(matches!(
        failure,
        AocError::Network(ureq::Error::StatusCode(500))
    ));
    assert_eq!(world.fetches, 1);
    assert_eq!(world.writes, 0);
    assert!(world.files.is_empty());
}

#[test]
fn unreadable_entry_leads_to_download() {
    let config = Config::new(Some(String::from("s")), None).unwrap();
    let lookup = Lookup::new(&config, 2025, 9);
    let failure = std::io::Error::from(std::io::ErrorKind::PermissionDenied);
    match lookup.resolve(Err(failure)) {
        AfterLookup::Miss { uri, cookie, next } => {
            assert_eq!(uri, "https://adventofcode.com/2025/day/9/input");
            assert_eq!(cookie, "session=s");
            assert_eq!(next.path(), "./.input/2025/9.txt");
        }
        AfterLookup::Hit { .. } => panic!("an unreadable entry is no entry"),
    }
}

#[test]
fn missing_credential_stops_the_run() {
    assert!(start(None, "1", 2025, 1).is_none());
    assert!(Config::new(None, None).is_none());
    assert!(Config::new(None, Some(String::from("/tmp/cache"))).is_none());
}

#[test]
fn run_starts_at_the_cache() {
    let run = start(Some(String::from("secret")), "two", 2025, 2).unwrap();
    assert_eq!(run.part, Part::Two);
    assert_eq!(run.lookup.path(), "./.input/2025/2.txt");
    assert_eq!(run.lookup.session, "secret");
    let run = start(Some(String::from("secret")), "", 2025, 2).unwrap();
    assert_eq!(run.part, Part::Both);
}

#[test]
fn configured_cache_root_is_used() {
    let config = Config::new(Some(String::from("s")), Some(String::from("cache"))).unwrap();
    let lookup = Lookup::new(&config, 2025, 12);
    assert_eq!(lookup.path(), "cache/2025/12.txt");
    match lookup.resolve(Ok(String::new())) {
        AfterLookup::Miss { next, .. } => match next.resolve(Ok(String::from("text"))) {
            AfterDownload::Fetched { path, text } => {
                assert_eq!(path, "cache/2025/12.txt");
                assert_eq!(text, "text");
            }
            AfterDownload::Failed { .. } => panic!("the download succeeded"),
        },
        AfterLookup::Hit { .. } => panic!("an empty entry is no entry"),
    }
}

#[test]
fn result_lines() {
    assert_eq!(part_one_line(0), "Part One: 0");
    assert_eq!(part_one_line(1182), "Part One: 1182");
    assert_eq!(part_two_line(4277556), "Part Two: 4277556");
    assert_eq!(part_two_line(usize::MAX), format!("Part Two: {}", usize::MAX));
}

#[test]
fn failure_messages() {
    let cache = AocError::from(std::io::Error::from(std::io::ErrorKind::NotFound));
    assert!(matches!(cache, AocError::Cache(_)));
    assert!(cache
        .message()
        .starts_with("failed to load input from cache: "));
    assert!(cache.message().len() > "failed to load input from cache: ".len());
    let network = AocError::from(ureq::Error::StatusCode(404));
    assert!(matches!(network, AocError::Network(_)));
    assert_eq!(
        network.message(),
        format!(
            "failed to download input from adventofcode.com: {}",
            ureq::Error::StatusCode(404)
        )
    );
}
