//! The configuration of a search, as the command line asks for it.

use vstd::prelude::*;
use crate::parse_args::{sorted, Args, ArgsView, Keywords, KeywordsView, MISSING_VALUE};
use crate::text::{count_of, parse_count, same};

verus! {

/// The directory that is searched where the command line names none.
pub const DEFAULT_DIR: &'static str = ".";

/// The number of workers where the command line names none.
pub const DEFAULT_WORKERS: usize = 8;

/// The complaint about a keyword that is neither `--dir` nor `--workers`.
pub const UNKNOWN_KEYWORD: &'static str = "Unknown keyword argument received.";

/// The complaint about a value of `--workers` that is no count.
pub const BAD_WORKERS: &'static str = "Number of workers is not a number.";

/// The complaint about a flag that is neither `-ic` nor `-h`.
pub const UNKNOWN_FLAG: &'static str = "Unknown flag received";

/// What stands for a complaint where help was asked for: the caller shows
/// the usage and nothing else.
pub const HELP: &'static str = "";

/// The complaint about a command line without a target.
pub const MISSING_TARGET: &'static str = "Missing the target to search for.";

/// The complaint about a search directory that is something else.
pub const NOT_A_DIRECTORY: &'static str = "Search directory is not a directory";

/// The complaint about a search directory that is not there.
pub const NOT_FOUND: &'static str = "Can not find specified search directory.";

/// What the file system holds at the path of the search directory.
#[derive(Clone, Copy, Debug, PartialEq, Eq)]
pub enum RootKind {
    /// A directory.
    Directory,
    /// Something that is no directory.
    NotDirectory,
    /// Nothing that can be looked at.
    Missing,
}

/// The configuration of a search.
#[derive(Debug)]
pub struct Config {
    dir: String,
    target: String,
    ignore_case: bool,
    workers: usize,
}

/// A configuration as plain values.
pub struct ConfigView {
    /// The directory at which the search starts.
    pub dir: Seq<char>,
    /// The text that is looked for.
    pub target: Seq<char>,
    /// Whether upper and lower case count as the same.
    pub ignore_case: bool,
    /// The number of workers.
    pub workers: usize,
}

impl View for Config {
    type V = ConfigView;

    closed spec fn view(&self) -> ConfigView {
        ConfigView {
            dir: self.dir@,
            target: self.target@,
            ignore_case: self.ignore_case,
            workers: self.workers,
        }
    }
}

/// The search directory and the number of workers after the keyword
/// arguments from position `from` on, where `dir` and `workers` hold before
/// them: each `--dir` and each `--workers` replaces what held before it. The
/// first keyword that is neither, or whose value is no count where one is
/// needed, gives its complaint.
pub open spec fn read_keywords(
    keywords: Seq<KeywordsView>,
    from: int,
    dir: Seq<char>,
    workers: usize,
) -> Result<(Seq<char>, usize), Seq<char>>
    decreases keywords.len() - from,
{
    if from < 0 || from >= keywords.len() {
        Ok((dir, workers))
    } else if keywords[from].keyword == "--dir"@ {
        read_keywords(keywords, from + 1, keywords[from].value, workers)
    } else if keywords[from].keyword == "--workers"@ {
        match count_of(keywords[from].value) {
            Some(count) => read_keywords(keywords, from + 1, dir, count),
            None => Err(BAD_WORKERS@),
        }
    } else {
        Err(UNKNOWN_KEYWORD@)
    }
}

/// Whether case is ignored after the flags from position `from` on, where
/// `ignore_case` holds before them: `-ic` says that it is. The first flag
/// that is not `-ic` ends the reading: `-h` with the empty complaint that
/// asks for the usage, any other with the complaint about it.
pub open spec fn read_flags(flags: Seq<Seq<char>>, from: int, ignore_case: bool) -> Result<
    bool,
    Seq<char>,
>
    decreases flags.len() - from,
{
    if from < 0 || from >= flags.len() {
        Ok(ignore_case)
    } else if flags[from] == "-ic"@ {
        read_flags(flags, from + 1, true)
    } else if flags[from] == "-h"@ {
        Err(HELP@)
    } else {
        Err(UNKNOWN_FLAG@)
    }
}

/// The configuration that sorted arguments ask for, or the complaint about
/// them: about the keywords first, then about the flags, then about a
/// missing target. The target is the first positional argument; further
/// ones are passed over.
pub open spec fn configured(parsed: ArgsView) -> Result<ConfigView, Seq<char>> {
    match read_keywords(parsed.keywords, 0, DEFAULT_DIR@, DEFAULT_WORKERS) {
        Err(complaint) => Err(complaint),
        Ok((dir, workers)) => match read_flags(parsed.flags, 0, false) {
            Err(complaint) => Err(complaint),
            Ok(ignore_case) => if parsed.positional.len() == 0 {
                Err(MISSING_TARGET@)
            } else {
                Ok(ConfigView { dir, target: parsed.positional[0], ignore_case, workers })
            },
        },
    }
}

/// The configuration that the command line `words` asks for, or the
/// complaint about it.
pub open spec fn resolved(words: Seq<Seq<char>>) -> Result<ConfigView, Seq<char>> {
    match sorted(words) {
        None => Err(MISSING_VALUE@),
        Some(parsed) => configured(parsed),
    }
}

/// What becomes of a configuration once the search directory was looked at.
pub open spec fn validated(config: ConfigView, root: RootKind) -> Result<ConfigView, Seq<char>> {
    match root {
        RootKind::Directory => Ok(config),
        RootKind::NotDirectory => Err(NOT_A_DIRECTORY@),
        RootKind::Missing => Err(NOT_FOUND@),
    }
}

/// Whether `r` is the result `wanted`, taken as plain values.
pub open spec fn gives(r: Result<Config, &'static str>, wanted: Result<ConfigView, Seq<char>>) -> bool {
    match wanted {
        Ok(config) => r is Ok && r->Ok_0@ == config,
        Err(complaint) => r is Err && r->Err_0@ == complaint,
    }
}

impl Config {
    /// Works out the configuration that a command line asks for, without a
    /// look at the file system: whether the search directory is one is for
    /// `validate`.
    pub fn build(args: Vec<String>) -> (r: Result<Config, &'static str>)
        ensures
            gives(r, resolved(args.deep_view())),
    {
        let parsed = match Args::build(args) {
            Ok(ret) => ret,
            Err(reason) => {
                return Err(reason);
            },
        };
        Config::from_sorted(&parsed)
    }

    /// Works out the configuration that sorted arguments ask for.
    pub fn from_sorted(parsed: &Args) -> (r: Result<Config, &'static str>)
        ensures
            gives(r, configured(parsed@)),
    {
        let mut dir = String::from_str(DEFAULT_DIR);
        let mut workers: usize = DEFAULT_WORKERS;
        let ghost keywords = parsed@.keywords;
        let mut i: usize = 0;
        while i < parsed.keywords.len()
            invariant
                i <= parsed.keywords.len(),
                keywords == parsed@.keywords,
                read_keywords(keywords, i as int, dir@, workers) == read_keywords(
                    keywords,
                    0,
                    DEFAULT_DIR@,
                    DEFAULT_WORKERS,
                ),
            decreases parsed.keywords.len() - i,
        {
            let kw: &Keywords = &parsed.keywords[i];
            assert(keywords[i as int] == kw.deep_view());
            if same(kw.keyword.as_str(), "--dir") {
                dir = kw.value.clone();
            } else if same(kw.keyword.as_str(), "--workers") {
                match parse_count(kw.value.as_str()) {
                    Some(count) => {
                        workers = count;
                    },
                    None => {
                        return Err(BAD_WORKERS);
                    },
                }
            } else {
                return Err(UNKNOWN_KEYWORD);
            }
            i += 1;
        }
        let mut ignore_case = false;
        let ghost flags = parsed@.flags;
        let mut j: usize = 0;
        while j < parsed.flags.len()
            invariant
                j <= parsed.flags.len(),
                flags == parsed@.flags,
                read_keywords(parsed@.keywords, 0, DEFAULT_DIR@, DEFAULT_WORKERS) == Ok::<
                    (Seq<char>, usize),
                    Seq<char>,
                >((dir@, workers)),
                read_flags(flags, j as int, ignore_case) == read_flags(flags, 0, false),
            decreases parsed.flags.len() - j,
        {
            assert(flags[j as int] == parsed.flags[j as int]@);
            if same(parsed.flags[j].as_str(), "-ic") {
                ignore_case = true;
            } else if same(parsed.flags[j].as_str(), "-h") {
                return Err(HELP);
            } else {
                return Err(UNKNOWN_FLAG);
            }
            j += 1;
        }
        if parsed.positional.len() == 0 {
            return Err(MISSING_TARGET);
        }
        let target = parsed.positional[0].clone();
        assert(parsed@.positional[0] == parsed.positional[0]@);
        Ok(Config { dir, target, ignore_case, workers })
    }

    /// Accepts the configuration if its search directory is a directory, and
    /// rejects it with a complaint otherwise.
    pub fn validate(self, root: RootKind) -> (r: Result<Config, &'static str>)
        ensures
            gives(r, validated(self@, root)),
    {
        match root {
            RootKind::Directory => Ok(self),
            RootKind::NotDirectory => Err(NOT_A_DIRECTORY),
            RootKind::Missing => Err(NOT_FOUND),
        }
    }

    /// The directory at which the search starts.
    pub fn dir(&self) -> (r: &str)
        ensures
            r@ == self@.dir,
    {
        self.dir.as_str()
    }

    /// The text that is looked for.
    pub fn target(&self) -> (r: &str)
        ensures
            r@ == self@.target,
    {
        self.target.as_str()
    }

    /// Whether upper and lower case count as the same.
    pub fn ignore_case(&self) -> (r: bool)
        ensures
            r == self@.ignore_case,
    {
        self.ignore_case
    }

    /// The number of workers.
    pub fn workers(&self) -> (r: usize)
        ensures
            r == self@.workers,
    {
        self.workers
    }
}

} // verus!
