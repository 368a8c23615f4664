//! The frontier of a search: the directories that were found and not yet
//! expanded, with a count of those that a worker is expanding right now.

use vstd::prelude::*;

verus! {

/// What a frontier holds, as plain values.
pub struct FrontierView {
    /// The paths that wait for a worker, the one taken next last.
    pub pending: Seq<Seq<char>>,
    /// How many directories were taken and not yet handed in.
    pub in_flight: nat,
}

impl FrontierView {
    /// Whether a worker that asks now gets a directory: one waits, and the
    /// count of those in flight can still grow.
    pub open spec fn can_take(self) -> bool {
        self.pending.len() > 0 && self.in_flight < usize::MAX
    }

    /// Whether the search is over: nothing waits and nothing is in flight.
    pub open spec fn finished(self) -> bool {
        self.pending.len() == 0 && self.in_flight == 0
    }

    /// The frontier with one more path waiting.
    pub open spec fn pushed(self, path: Seq<char>) -> FrontierView {
        FrontierView { pending: self.pending.push(path), ..self }
    }

    /// The frontier after a worker took the last pending path.
    pub open spec fn taken(self) -> FrontierView
        recommends
            self.can_take(),
    {
        FrontierView { pending: self.pending.drop_last(), in_flight: self.in_flight + 1 }
    }

    /// The frontier after a worker handed in the directories it found while
    /// expanding the one it had taken.
    pub open spec fn handed_in(self, found: Seq<Seq<char>>) -> FrontierView
        recommends
            self.in_flight > 0,
    {
        FrontierView { pending: self.pending + found, in_flight: (self.in_flight - 1) as nat }
    }
}

/// What a worker that asks the frontier for work is told.
#[derive(Debug, PartialEq, Eq)]
pub enum Next {
    /// Expand this directory, then hand in what it holds.
    Expand(String),
    /// Nothing can be taken now, but directories are in flight: ask again.
    Wait,
    /// Nothing waits and nothing is in flight: the search is over.
    Done,
}

/// The directories that wait for expansion, shared by the workers of one
/// search. A directory counts as in flight from the moment a worker takes it
/// until that worker has handed in the directories found in it, so that no
/// worker mistakes a frontier that is empty for a moment for the end.
pub struct Frontier {
    pending: Vec<String>,
    in_flight: usize,
}

impl View for Frontier {
    type V = FrontierView;

    closed spec fn view(&self) -> FrontierView {
        FrontierView { pending: self.pending.deep_view(), in_flight: self.in_flight as nat }
    }
}

impl Frontier {
    /// An empty frontier.
    pub fn new() -> (r: Frontier)
        ensures
            r@ == (FrontierView { pending: Seq::empty(), in_flight: 0 }),
    {
        let r = Frontier { pending: Vec::new(), in_flight: 0 };
        assert(r.pending.deep_view() =~= Seq::empty());
        r
    }

    /// How many directories are in flight.
    pub fn in_flight(&self) -> (r: usize)
        ensures
            r == self@.in_flight,
    {
        self.in_flight
    }

    /// How many directories wait.
    pub fn len(&self) -> (r: usize)
        ensures
            r == self@.pending.len(),
    {
        self.pending.len()
    }

    /// Whether the search is over.
    pub fn is_finished(&self) -> (r: bool)
        ensures
            r == self@.finished(),
    {
        self.pending.len() == 0 && self.in_flight == 0
    }

    /// Adds a path to those that wait.
    pub fn push(&mut self, path: String)
        ensures
            final(self)@ == old(self)@.pushed(path@),
    {
        self.pending.push(path);
        assert(self.pending.deep_view() =~= old(self).pending.deep_view().push(path@));
    }

    /// Takes the path that was pushed last, if one waits, and counts it as
    /// in flight. Gives none where the count cannot grow any more.
    pub fn pop(&mut self) -> (r: Option<String>)
        ensures
            old(self)@.can_take() ==> r is Some && r->Some_0@ == old(self)@.pending.last()
                && final(self)@ == old(self)@.taken(),
            !old(self)@.can_take() ==> r is None && final(self)@ == old(self)@,
    {
        if self.in_flight < usize::MAX {
            let got = self.pending.pop();
            if got.is_some() {
                self.in_flight = self.in_flight + 1;
                assert(self.pending.deep_view() =~= old(self).pending.deep_view().drop_last());
            }
            got
        } else {
            None
        }
    }

    /// Tells a worker what to do next. The search is over only when nothing
    /// waits and nothing is in flight: while a directory is in flight, more
    /// may come to wait.
    pub fn next(&mut self) -> (r: Next)
        ensures
            match r {
                Next::Expand(dir) => old(self)@.can_take() && dir@ == old(self)@.pending.last()
                    && final(self)@ == old(self)@.taken(),
                Next::Wait => !old(self)@.can_take() && !old(self)@.finished() && final(self)@
                    == old(self)@,
                Next::Done => old(self)@.finished() && final(self)@ == old(self)@,
            },
    {
        match self.pop() {
            Some(dir) => Next::Expand(dir),
            None => {
                if self.in_flight == 0 {
                    Next::Done
                } else {
                    Next::Wait
                }
            },
        }
    }

    /// Hands in the directories found while expanding one that was in
    /// flight: they wait from now on, and the expanded one is accounted for.
    pub fn finish(&mut self, found: Vec<String>)
        requires
            old(self)@.in_flight > 0,
        ensures
            final(self)@ == old(self)@.handed_in(found.deep_view()),
    {
        let mut found = found;
        let ghost added = found.deep_view();
        self.pending.append(&mut found);
        self.in_flight = self.in_flight - 1;
        assert(self.pending.deep_view() =~= old(self).pending.deep_view() + added);
    }
}

} // verus!
