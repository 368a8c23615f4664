//! One step of a worker: from the listing of a directory to the paths that
//! are reported and the directories that are searched next.

use vstd::prelude::*;
use crate::pattern::{accepts, Pattern};

verus! {

/// One entry of a directory, as a listing shows it.
#[derive(Debug, PartialEq, Eq)]
pub struct Entry {
    /// The entry's full path.
    pub path: String,
    /// Whether the entry is a directory.
    pub is_dir: bool,
}

/// An entry as plain values.
pub struct EntryView {
    pub path: Seq<char>,
    pub is_dir: bool,
}

impl DeepView for Entry {
    type V = EntryView;

    open spec fn deep_view(&self) -> EntryView {
        EntryView { path: self.path@, is_dir: self.is_dir }
    }
}

/// What listing a directory gave: its entries, or the cause of the failure.
pub open spec fn listing_view(listing: Result<Vec<Entry>, String>) -> Result<
    Seq<EntryView>,
    Seq<char>,
> {
    match listing {
        Ok(entries) => Ok(entries.deep_view()),
        Err(cause) => Err(cause@),
    }
}

/// The paths of `entries`, in their order.
pub open spec fn paths(entries: Seq<EntryView>) -> Seq<Seq<char>> {
    entries.map_values(|e: EntryView| e.path)
}

/// The paths among `all` that a search for `needle` reports, in their order.
pub open spec fn reported(all: Seq<Seq<char>>, needle: Seq<char>, ignore_case: bool) -> Seq<
    Seq<char>,
> {
    all.filter(|path: Seq<char>| accepts(needle, ignore_case, path))
}

/// The paths of the directories among `entries`, in their order.
pub open spec fn subdirs(entries: Seq<EntryView>) -> Seq<Seq<char>> {
    paths(entries.filter(|e: EntryView| e.is_dir))
}

/// The line that tells of a directory that could not be listed.
pub open spec fn complaint(dir: Seq<char>, cause: Seq<char>) -> Seq<char> {
    "Unable to read directory "@ + dir + ": "@ + cause
}

/// What a worker has in hand after one directory.
#[derive(Debug, PartialEq, Eq)]
pub struct Expansion {
    /// The paths to report, in the order of the listing.
    pub matches: Vec<String>,
    /// The directories to search next, in the order of the listing.
    pub subdirs: Vec<String>,
    /// The line to put on the error channel, if the listing failed.
    pub complaint: Option<String>,
}

/// An expansion as plain values.
pub struct ExpansionView {
    pub matches: Seq<Seq<char>>,
    pub subdirs: Seq<Seq<char>>,
    pub complaint: Option<Seq<char>>,
}

impl View for Expansion {
    type V = ExpansionView;

    open spec fn view(&self) -> ExpansionView {
        ExpansionView {
            matches: self.matches.deep_view(),
            subdirs: self.subdirs.deep_view(),
            complaint: match self.complaint {
                Some(line) => Some(line@),
                None => None,
            },
        }
    }
}

/// What expanding the directory `dir` comes to, given what listing it gave.
/// Every entry whose path the search accepts is reported, a directory too,
/// and every directory is searched next, reported or not. A listing that
/// failed gives one complaint and nothing else.
pub open spec fn expansion(
    dir: Seq<char>,
    listing: Result<Seq<EntryView>, Seq<char>>,
    needle: Seq<char>,
    ignore_case: bool,
) -> ExpansionView {
    match listing {
        Ok(entries) => ExpansionView {
            matches: reported(paths(entries), needle, ignore_case),
            subdirs: subdirs(entries),
            complaint: None,
        },
        Err(cause) => ExpansionView {
            matches: Seq::empty(),
            subdirs: Seq::empty(),
            complaint: Some(complaint(dir, cause)),
        },
    }
}

/// Writes the line that tells of a directory that could not be listed.
pub fn complaint_line(dir: &str, cause: &str) -> (r: String)
    ensures
        r@ == complaint(dir@, cause@),
{
    let mut line = String::from_str("Unable to read directory ");
    line.append(dir);
    line.append(": ");
    line.append(cause);
    line
}

/// Expands the directory `dir`, whose listing gave `listing`.
pub fn expand(dir: &str, listing: &Result<Vec<Entry>, String>, pattern: &Pattern) -> (r: Expansion)
    ensures
        r@ == expansion(dir@, listing_view(*listing), pattern.needle(), pattern.ignores_case()),
{
    match listing {
        Ok(entries) => {
            let ghost all = entries.deep_view();
            let ghost wanted = |path: Seq<char>|
                accepts(pattern.needle(), pattern.ignores_case(), path);
            let ghost is_dir = |e: EntryView| e.is_dir;
            let mut matches: Vec<String> = Vec::new();
            let mut subdirs: Vec<String> = Vec::new();
            let mut i: usize = 0;
            assert(all.take(0) =~= Seq::empty());
            assert(paths(all.take(0)) =~= Seq::empty());
            while i < entries.len()
                invariant
                    i <= entries.len(),
                    all == entries.deep_view(),
                    wanted == |path: Seq<char>|
                        accepts(pattern.needle(), pattern.ignores_case(), path),
                    is_dir == |e: EntryView| e.is_dir,
                    matches.deep_view() == paths(all.take(i as int)).filter(wanted),
                    subdirs.deep_view() == paths(all.take(i as int).filter(is_dir)),
                decreases entries.len() - i,
            {
                let entry = &entries[i];
                proof {
                    let before = all.take(i as int);
                    let e = all[i as int];
                    assert(all.take(i + 1) =~= before.push(e));
                    assert(paths(before.push(e)) =~= paths(before).push(e.path));
                    paths(before).lemma_filter_push(e.path, wanted);
                    before.lemma_filter_push(e, is_dir);
                    assert(paths(before.filter(is_dir).push(e)) =~= paths(
                        before.filter(is_dir),
                    ).push(e.path));
                }
                if pattern.is_match(entry.path.as_str()) {
                    let ghost old_matches = matches.deep_view();
                    matches.push(entry.path.clone());
                    assert(matches.deep_view() =~= old_matches.push(entry.path@));
                }
                if entry.is_dir {
                    let ghost old_subdirs = subdirs.deep_view();
                    subdirs.push(entry.path.clone());
                    assert(subdirs.deep_view() =~= old_subdirs.push(entry.path@));
                }
                i += 1;
            }
            assert(all.take(i as int) =~= all);
            Expansion { matches, subdirs, complaint: None }
        },
        Err(cause) => {
            let r = Expansion {
                matches: Vec::new(),
                subdirs: Vec::new(),
                complaint: Some(complaint_line(dir, cause.as_str())),
            };
            assert(r.matches.deep_view() =~= Seq::empty());
            assert(r.subdirs.deep_view() =~= Seq::empty());
            r
        },
    }
}

} // verus!
