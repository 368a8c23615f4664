//! The containment test that decides which paths a search reports.

use vstd::prelude::*;
use crate::text::{contains, has_part, lowercase, to_lowercase};

verus! {

/// The text that is looked for in a path: the target itself, or its
/// lower-case form when case is ignored.
pub open spec fn folded(text: Seq<char>, ignore_case: bool) -> Seq<char> {
    if ignore_case {
        lowercase(text)
    } else {
        text
    }
}

/// Whether a search for `needle` reports `path`. The test is on the whole
/// path, and with `ignore_case` on its lower-case form.
pub open spec fn accepts(needle: Seq<char>, ignore_case: bool, path: Seq<char>) -> bool {
    contains(folded(path, ignore_case), needle)
}

/// What a search looks for, folded once so that no path test folds it again.
pub struct Pattern {
    needle: String,
    ignore_case: bool,
}

impl Pattern {
    /// The text that is looked for in a path.
    pub closed spec fn needle(&self) -> Seq<char> {
        self.needle@
    }

    /// Whether paths are folded to lower case before the test.
    pub closed spec fn ignores_case(&self) -> bool {
        self.ignore_case
    }

    /// Whether this pattern reports `path`.
    pub open spec fn reports(&self, path: Seq<char>) -> bool {
        accepts(self.needle(), self.ignores_case(), path)
    }

    /// The pattern of a search for `target`.
    pub fn new(target: &str, ignore_case: bool) -> (r: Pattern)
        ensures
            r.needle() == folded(target@, ignore_case),
            r.ignores_case() == ignore_case,
    {
        if ignore_case {
            Pattern::folded_to(to_lowercase(target), true)
        } else {
            Pattern::folded_to(String::from_str(target), false)
        }
    }

    /// The pattern that looks for `needle` as it stands.
    pub fn folded_to(needle: String, ignore_case: bool) -> (r: Pattern)
        ensures
            r.needle() == needle@,
            r.ignores_case() == ignore_case,
    {
        Pattern { needle, ignore_case }
    }

    /// Whether the needle is a part of `text`, taken as it stands.
    pub fn found_in(&self, text: &str) -> (r: bool)
        ensures
            r == contains(text@, self.needle()),
    {
        has_part(text, self.needle.as_str())
    }

    /// Whether `path` is reported.
    pub fn is_match(&self, path: &str) -> (r: bool)
        ensures
            r == self.reports(path@),
    {
        if self.ignore_case {
            let lowered = to_lowercase(path);
            self.found_in(lowered.as_str())
        } else {
            self.found_in(path)
        }
    }
}

} // verus!
