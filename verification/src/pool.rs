//! The course of a search as a pool of workers runs it: directories wait,
//! are taken by a worker, and are handed in with what was found in them, in
//! whatever order the workers get to them.

use vstd::prelude::*;
use vstd::multiset::Multiset;
use crate::frontier::FrontierView;
use crate::pattern::accepts;
use crate::tree::{below_each, complaints_each, lemma_entries, reached_each, roots, TreeView};
use crate::worker::{expansion, reported};

verus! {

/// A search in progress.
pub struct Pool {
    /// The directories that wait for a worker.
    pub pending: Seq<TreeView>,
    /// The directories that a worker has taken and not yet handed in.
    pub in_flight: Seq<TreeView>,
    /// The paths of the directories that were listed and handed in, in
    /// their order.
    pub listed: Seq<Seq<char>>,
    /// The paths reported so far, in the order of their reports.
    pub matches: Seq<Seq<char>>,
    /// The complaints made so far, in their order.
    pub complaints: Seq<Seq<char>>,
}

/// One step of a search.
pub enum Move {
    /// A free worker takes the pending directory at this position.
    Take(int),
    /// The worker that holds the directory at this position among those in
    /// flight hands it in: it reports what the listing showed, and the
    /// directories in it wait from now on.
    HandIn(int),
}

/// The paths still to be reported from below the directories `dirs`.
pub open spec fn owed(dirs: Seq<TreeView>, needle: Seq<char>, ignore_case: bool) -> Multiset<
    Seq<char>,
> {
    reported(below_each(dirs), needle, ignore_case).to_multiset()
}

/// The complaints still to be made about the directories `dirs`.
pub open spec fn owed_complaints(dirs: Seq<TreeView>) -> Multiset<Seq<char>> {
    complaints_each(dirs).to_multiset()
}

/// The directories still to be listed: `dirs` and those reached below them.
pub open spec fn owed_listings(dirs: Seq<TreeView>) -> Multiset<Seq<char>> {
    reached_each(dirs).to_multiset()
}

impl Pool {
    /// The search before its first step: the root waits.
    pub open spec fn start(root: TreeView) -> Pool {
        Pool {
            pending: seq![root],
            in_flight: Seq::empty(),
            listed: Seq::empty(),
            matches: Seq::empty(),
            complaints: Seq::empty(),
        }
    }

    /// Whether the search is over: nothing waits and nothing is in flight.
    pub open spec fn finished(self) -> bool {
        self.pending.len() == 0 && self.in_flight.len() == 0
    }

    /// Whether a pool of `workers` workers can make the step `step` now.
    pub open spec fn allows(self, workers: nat, step: Move) -> bool {
        match step {
            Move::Take(at) => 0 <= at < self.pending.len() && self.in_flight.len() < workers,
            Move::HandIn(at) => 0 <= at < self.in_flight.len(),
        }
    }

    /// The search after the step `step`.
    pub open spec fn after(self, step: Move, needle: Seq<char>, ignore_case: bool) -> Pool {
        match step {
            Move::Take(at) => Pool {
                pending: self.pending.remove(at),
                in_flight: self.in_flight.push(self.pending[at]),
                ..self
            },
            Move::HandIn(at) => {
                let dir = self.in_flight[at];
                Pool {
                    pending: self.pending + dir.shown_dirs(),
                    in_flight: self.in_flight.remove(at),
                    listed: self.listed.push(dir.path),
                    matches: self.matches + reported(dir.shown(), needle, ignore_case),
                    complaints: self.complaints + dir.own_complaint(),
                }
            },
        }
    }

    /// Nothing is lost and nothing is made up. Every directory that a search
    /// of the tree `root` reaches was listed, or waits, or is in flight, or
    /// will be reached from one that waits or is in flight, and none is in
    /// two of these places. What was reported, with what is still owed from
    /// the directories that wait or are in flight, is what a search of the
    /// tree reports; and so for the complaints.
    pub open spec fn conserves(self, root: TreeView, needle: Seq<char>, ignore_case: bool) -> bool {
        &&& self.listed.to_multiset().add(owed_listings(self.pending)).add(
            owed_listings(self.in_flight),
        ) == root.reached().to_multiset()
        &&& self.matches.to_multiset().add(owed(self.pending, needle, ignore_case)).add(
            owed(self.in_flight, needle, ignore_case),
        ) == reported(root.below(), needle, ignore_case).to_multiset()
        &&& self.complaints.to_multiset().add(owed_complaints(self.pending)).add(
            owed_complaints(self.in_flight),
        ) == root.complaints().to_multiset()
    }

    /// How many steps the search has before it: two for each directory that
    /// is still to be listed, less one for each that is already taken.
    pub open spec fn steps_left(self) -> int {
        2 * reached_each(self.pending).len() + 2 * reached_each(self.in_flight).len()
            - self.in_flight.len()
    }
}

/// The search of the tree `root` after the steps `steps`, made one after the
/// other by a pool of `workers` workers; `None` if one of them cannot be made
/// when its turn comes.
pub open spec fn play(
    root: TreeView,
    steps: Seq<Move>,
    workers: nat,
    needle: Seq<char>,
    ignore_case: bool,
) -> Option<Pool>
    decreases steps.len(),
{
    if steps.len() == 0 {
        Some(Pool::start(root))
    } else {
        match play(root, steps.drop_last(), workers, needle, ignore_case) {
            Some(pool) => if pool.allows(workers, steps.last()) {
                Some(pool.after(steps.last(), needle, ignore_case))
            } else {
                None
            },
            None => None,
        }
    }
}

/// Whether `frontier` is the frontier of the search `pool`: the paths that
/// wait are those of the directories that wait, in their order, and as many
/// directories are in flight.
pub open spec fn shows(frontier: FrontierView, pool: Pool) -> bool {
    &&& frontier.pending == roots(pool.pending)
    &&& frontier.in_flight == pool.in_flight.len()
}

/// The lines that an expansion puts on the error channel.
pub open spec fn complaint_lines(complaint: Option<Seq<char>>) -> Seq<Seq<char>> {
    match complaint {
        Some(line) => seq![line],
        None => Seq::empty(),
    }
}

/// What is found below two runs of directories is what is found below the
/// one and then below the other.
proof fn lemma_each_add(a: Seq<TreeView>, b: Seq<TreeView>)
    ensures
        below_each(a + b) == below_each(a) + below_each(b),
        complaints_each(a + b) == complaints_each(a) + complaints_each(b),
        reached_each(a + b) == reached_each(a) + reached_each(b),
    decreases b.len(),
{
    if b.len() == 0 {
        assert(a + b =~= a);
        assert(below_each(a) + below_each(b) =~= below_each(a));
        assert(complaints_each(a) + complaints_each(b) =~= complaints_each(a));
        assert(reached_each(a) + reached_each(b) =~= reached_each(a));
    } else {
        lemma_each_add(a, b.drop_last());
        assert((a + b).drop_last() =~= a + b.drop_last());
        assert((a + b).last() == b.last());
        assert(below_each(a + b) =~= below_each(a) + below_each(b));
        assert(complaints_each(a + b) =~= complaints_each(a) + complaints_each(b));
        assert(reached_each(a + b) =~= reached_each(a) + reached_each(b));
    }
}

/// What is found below one directory alone.
proof fn lemma_each_one(dir: TreeView)
    ensures
        below_each(seq![dir]) == dir.below(),
        complaints_each(seq![dir]) == dir.complaints(),
        reached_each(seq![dir]) == dir.reached(),
{
    let one = seq![dir];
    assert(one.drop_last() =~= Seq::<TreeView>::empty());
    assert(one.last() == dir);
    assert(below_each(one) =~= below_each(one.drop_last()) + dir.below());
    assert(below_each(one) =~= dir.below());
    assert(complaints_each(one) =~= complaints_each(one.drop_last()) + dir.complaints());
    assert(complaints_each(one) =~= dir.complaints());
    assert(reached_each(one) =~= reached_each(one.drop_last()) + dir.reached());
    assert(reached_each(one) =~= dir.reached());
}

/// The multiset of three runs, of which the middle one is left out or kept.
proof fn lemma_middle<A>(head: Seq<A>, one: Seq<A>, tail: Seq<A>)
    ensures
        (head + one + tail).to_multiset() == (head + tail).to_multiset().add(one.to_multiset()),
        (head + one + tail).len() == (head + tail).len() + one.len(),
{
    broadcast use vstd::multiset::group_multiset_axioms;

    vstd::seq_lib::lemma_multiset_commutative(head, one);
    vstd::seq_lib::lemma_multiset_commutative(head + one, tail);
    vstd::seq_lib::lemma_multiset_commutative(head, tail);
    assert((head + one + tail).to_multiset() =~= (head + tail).to_multiset().add(
        one.to_multiset(),
    ));
}

/// What is owed from directories does not depend on their order: taking one
/// out leaves what is owed from the others.
proof fn lemma_owed_remove(dirs: Seq<TreeView>, at: int, needle: Seq<char>, ignore_case: bool)
    requires
        0 <= at < dirs.len(),
    ensures
        owed(dirs, needle, ignore_case) == owed(dirs.remove(at), needle, ignore_case).add(
            reported(dirs[at].below(), needle, ignore_case).to_multiset(),
        ),
        owed_complaints(dirs) == owed_complaints(dirs.remove(at)).add(
            dirs[at].complaints().to_multiset(),
        ),
        owed_listings(dirs) == owed_listings(dirs.remove(at)).add(
            dirs[at].reached().to_multiset(),
        ),
        reached_each(dirs).len() == reached_each(dirs.remove(at)).len() + dirs[at].reached().len(),
{
    let wanted = |path: Seq<char>| accepts(needle, ignore_case, path);
    let head = dirs.take(at);
    let one = seq![dirs[at]];
    let tail = dirs.skip(at + 1);
    assert(dirs =~= head + one + tail);
    assert(dirs.remove(at) =~= head + tail);
    lemma_each_add(head, one);
    lemma_each_add(head + one, tail);
    lemma_each_add(head, tail);
    lemma_each_one(dirs[at]);
    let h = below_each(head);
    let o = dirs[at].below();
    let t = below_each(tail);
    Seq::filter_distributes_over_add(h, o, wanted);
    Seq::filter_distributes_over_add(h + o, t, wanted);
    Seq::filter_distributes_over_add(h, t, wanted);
    lemma_middle(h.filter(wanted), o.filter(wanted), t.filter(wanted));
    lemma_middle(complaints_each(head), dirs[at].complaints(), complaints_each(tail));
    lemma_middle(reached_each(head), dirs[at].reached(), reached_each(tail));
}

/// What is owed from directories and one more.
proof fn lemma_owed_push(dirs: Seq<TreeView>, dir: TreeView, needle: Seq<char>, ignore_case: bool)
    ensures
        owed(dirs.push(dir), needle, ignore_case) == owed(dirs, needle, ignore_case).add(
            reported(dir.below(), needle, ignore_case).to_multiset(),
        ),
        owed_complaints(dirs.push(dir)) == owed_complaints(dirs).add(
            dir.complaints().to_multiset(),
        ),
        owed_listings(dirs.push(dir)) == owed_listings(dirs).add(dir.reached().to_multiset()),
        reached_each(dirs.push(dir)).len() == reached_each(dirs).len() + dir.reached().len(),
{
    broadcast use vstd::multiset::group_multiset_axioms;

    let wanted = |path: Seq<char>| accepts(needle, ignore_case, path);
    assert(dirs.push(dir).drop_last() =~= dirs);
    Seq::filter_distributes_over_add(below_each(dirs), dir.below(), wanted);
    vstd::seq_lib::lemma_multiset_commutative(
        below_each(dirs).filter(wanted),
        dir.below().filter(wanted),
    );
    vstd::seq_lib::lemma_multiset_commutative(complaints_each(dirs), dir.complaints());
    vstd::seq_lib::lemma_multiset_commutative(reached_each(dirs), dir.reached());
}

/// What is owed from two runs of directories.
proof fn lemma_owed_add(a: Seq<TreeView>, b: Seq<TreeView>, needle: Seq<char>, ignore_case: bool)
    ensures
        owed(a + b, needle, ignore_case) == owed(a, needle, ignore_case).add(
            owed(b, needle, ignore_case),
        ),
        owed_complaints(a + b) == owed_complaints(a).add(owed_complaints(b)),
        owed_listings(a + b) == owed_listings(a).add(owed_listings(b)),
        reached_each(a + b).len() == reached_each(a).len() + reached_each(b).len(),
{
    broadcast use vstd::multiset::group_multiset_axioms;

    let wanted = |path: Seq<char>| accepts(needle, ignore_case, path);
    lemma_each_add(a, b);
    Seq::filter_distributes_over_add(below_each(a), below_each(b), wanted);
    vstd::seq_lib::lemma_multiset_commutative(
        below_each(a).filter(wanted),
        below_each(b).filter(wanted),
    );
    vstd::seq_lib::lemma_multiset_commutative(complaints_each(a), complaints_each(b));
    vstd::seq_lib::lemma_multiset_commutative(reached_each(a), reached_each(b));
}

/// What is owed from one directory: what its listing shows, and what is owed
/// from the directories in it.
proof fn lemma_owed_dir(dir: TreeView, needle: Seq<char>, ignore_case: bool)
    ensures
        reported(dir.below(), needle, ignore_case).to_multiset() == reported(
            dir.shown(),
            needle,
            ignore_case,
        ).to_multiset().add(owed(dir.shown_dirs(), needle, ignore_case)),
        dir.complaints().to_multiset() == dir.own_complaint().to_multiset().add(
            owed_complaints(dir.shown_dirs()),
        ),
        dir.reached().to_multiset() == seq![dir.path].to_multiset().add(
            owed_listings(dir.shown_dirs()),
        ),
        dir.reached().len() == 1 + reached_each(dir.shown_dirs()).len(),
{
    broadcast use vstd::multiset::group_multiset_axioms;

    let wanted = |path: Seq<char>| accepts(needle, ignore_case, path);
    assert(dir.below() =~= dir.shown() + below_each(dir.shown_dirs()));
    Seq::filter_distributes_over_add(dir.shown(), below_each(dir.shown_dirs()), wanted);
    vstd::seq_lib::lemma_multiset_commutative(
        dir.shown().filter(wanted),
        below_each(dir.shown_dirs()).filter(wanted),
    );
    assert(dir.complaints() =~= dir.own_complaint() + complaints_each(dir.shown_dirs()));
    vstd::seq_lib::lemma_multiset_commutative(
        dir.own_complaint(),
        complaints_each(dir.shown_dirs()),
    );
    assert(dir.reached() =~= seq![dir.path] + reached_each(dir.shown_dirs()));
    vstd::seq_lib::lemma_multiset_commutative(seq![dir.path], reached_each(dir.shown_dirs()));
}

/// Nothing is owed from no directories.
proof fn lemma_nothing_owed(needle: Seq<char>, ignore_case: bool)
    ensures
        Seq::<Seq<char>>::empty().to_multiset() == Multiset::<Seq<char>>::empty(),
        owed(Seq::empty(), needle, ignore_case) == Multiset::<Seq<char>>::empty(),
        owed_complaints(Seq::empty()) == Multiset::<Seq<char>>::empty(),
        owed_listings(Seq::empty()) == Multiset::<Seq<char>>::empty(),
{
    broadcast use vstd::multiset::group_multiset_axioms;

    let none = Seq::<Seq<char>>::empty();
    none.to_multiset_ensures();
    vstd::multiset::lemma_multiset_empty_len(none.to_multiset());
    assert(none.to_multiset() =~= Multiset::<Seq<char>>::empty());
    assert(below_each(Seq::empty()) =~= none);
    assert(reported(none, needle, ignore_case) =~= none);
    assert(complaints_each(Seq::empty()) =~= none);
    assert(reached_each(Seq::empty()) =~= none);
}

/// A search of directories lists each of them.
proof fn lemma_reached_each(dirs: Seq<TreeView>)
    ensures
        reached_each(dirs).len() >= dirs.len(),
    decreases dirs.len(),
{
    if dirs.len() > 0 {
        lemma_reached_each(dirs.drop_last());
        assert(dirs.last().reached().len() >= 1);
    }
}

/// A search has steps before it as long as it is not over, and none when
/// it is.
pub proof fn lemma_steps_left(pool: Pool)
    ensures
        pool.steps_left() >= 2 * pool.pending.len() + pool.in_flight.len(),
        pool.finished() <==> pool.steps_left() == 0,
{
    lemma_reached_each(pool.pending);
    lemma_reached_each(pool.in_flight);
    if pool.finished() {
        assert(pool.pending =~= Seq::empty());
        assert(pool.in_flight =~= Seq::empty());
    }
}

/// A search that conserves and is over has listed every directory that a
/// search of the tree reaches, reported what it reports, and made the
/// complaints that it makes.
pub proof fn lemma_finished_is_complete(
    pool: Pool,
    root: TreeView,
    needle: Seq<char>,
    ignore_case: bool,
)
    requires
        pool.conserves(root, needle, ignore_case),
        pool.finished(),
    ensures
        pool.listed.to_multiset() == root.reached().to_multiset(),
        pool.matches.to_multiset() == reported(root.below(), needle, ignore_case).to_multiset(),
        pool.complaints.to_multiset() == root.complaints().to_multiset(),
{
    broadcast use vstd::multiset::group_multiset_axioms;

    lemma_nothing_owed(needle, ignore_case);
    assert(pool.pending =~= Seq::empty());
    assert(pool.in_flight =~= Seq::empty());
    assert(pool.listed.to_multiset() =~= root.reached().to_multiset());
    assert(pool.matches.to_multiset() =~= reported(
        root.below(),
        needle,
        ignore_case,
    ).to_multiset());
    assert(pool.complaints.to_multiset() =~= root.complaints().to_multiset());
}

/// The search conserves at its start.
pub proof fn lemma_start_conserves(root: TreeView, needle: Seq<char>, ignore_case: bool)
    ensures
        Pool::start(root).conserves(root, needle, ignore_case),
        Pool::start(root).steps_left() == 2 * root.reached().len(),
{
    broadcast use vstd::multiset::group_multiset_axioms;

    let pool = Pool::start(root);
    lemma_each_one(root);
    lemma_nothing_owed(needle, ignore_case);
    assert(pool.listed.to_multiset().add(owed_listings(pool.pending)).add(
        owed_listings(pool.in_flight),
    ) =~= root.reached().to_multiset());
    assert(pool.matches.to_multiset().add(owed(pool.pending, needle, ignore_case)).add(
        owed(pool.in_flight, needle, ignore_case),
    ) =~= reported(root.below(), needle, ignore_case).to_multiset());
    assert(pool.complaints.to_multiset().add(owed_complaints(pool.pending)).add(
        owed_complaints(pool.in_flight),
    ) =~= root.complaints().to_multiset());
    assert(reached_each(pool.in_flight) =~= Seq::empty());
}

/// A step that the pool allows conserves, and leaves one step fewer.
pub proof fn lemma_step_conserves(
    pool: Pool,
    step: Move,
    workers: nat,
    root: TreeView,
    needle: Seq<char>,
    ignore_case: bool,
)
    requires
        pool.allows(workers, step),
        pool.conserves(root, needle, ignore_case),
    ensures
        pool.after(step, needle, ignore_case).conserves(root, needle, ignore_case),
        pool.after(step, needle, ignore_case).steps_left() == pool.steps_left() - 1,
{
    broadcast use vstd::multiset::group_multiset_axioms;

    let next = pool.after(step, needle, ignore_case);
    match step {
        Move::Take(at) => {
            let dir = pool.pending[at];
            lemma_owed_remove(pool.pending, at, needle, ignore_case);
            lemma_owed_push(pool.in_flight, dir, needle, ignore_case);
        },
        Move::HandIn(at) => {
            let dir = pool.in_flight[at];
            lemma_owed_remove(pool.in_flight, at, needle, ignore_case);
            lemma_owed_dir(dir, needle, ignore_case);
            lemma_owed_add(pool.pending, dir.shown_dirs(), needle, ignore_case);
            vstd::seq_lib::lemma_multiset_commutative(
                pool.matches,
                reported(dir.shown(), needle, ignore_case),
            );
            vstd::seq_lib::lemma_multiset_commutative(pool.complaints, dir.own_complaint());
            vstd::seq_lib::to_multiset_build(pool.listed, dir.path);
            vstd::seq_lib::to_multiset_build(Seq::<Seq<char>>::empty(), dir.path);
            lemma_nothing_owed(needle, ignore_case);
            assert(Seq::<Seq<char>>::empty().push(dir.path) =~= seq![dir.path]);
        },
    }
    assert(next.listed.to_multiset().add(owed_listings(next.pending)).add(
        owed_listings(next.in_flight),
    ) =~= root.reached().to_multiset());
    assert(next.matches.to_multiset().add(owed(next.pending, needle, ignore_case)).add(
        owed(next.in_flight, needle, ignore_case),
    ) =~= reported(root.below(), needle, ignore_case).to_multiset());
    assert(next.complaints.to_multiset().add(owed_complaints(next.pending)).add(
        owed_complaints(next.in_flight),
    ) =~= root.complaints().to_multiset());
}

/// A worker of a pool in which one is free, and that takes a path from the
/// frontier, makes a step of the search: it takes the directory that waits
/// last.
pub proof fn lemma_taking_is_a_step(
    frontier: FrontierView,
    pool: Pool,
    workers: nat,
    needle: Seq<char>,
    ignore_case: bool,
)
    requires
        shows(frontier, pool),
        frontier.can_take(),
        pool.in_flight.len() < workers,
    ensures
        pool.allows(workers, Move::Take(pool.pending.len() - 1)),
        frontier.pending.last() == pool.pending.last().path,
        shows(
            frontier.taken(),
            pool.after(Move::Take(pool.pending.len() - 1), needle, ignore_case),
        ),
{
    let last = pool.pending.len() - 1;
    let next = pool.after(Move::Take(last), needle, ignore_case);
    assert(pool.pending.remove(last) =~= pool.pending.drop_last());
    assert(roots(next.pending) =~= roots(pool.pending).drop_last());
}

/// A worker that expands a directory in flight and hands in what it found
/// makes a step of the search: it reports what the step reports, and the
/// frontier is that of the search after the step.
pub proof fn lemma_handing_in_is_a_step(
    frontier: FrontierView,
    pool: Pool,
    at: int,
    workers: nat,
    needle: Seq<char>,
    ignore_case: bool,
)
    requires
        shows(frontier, pool),
        0 <= at < pool.in_flight.len(),
    ensures
        pool.allows(workers, Move::HandIn(at)),
        ({
            let dir = pool.in_flight[at];
            let found = expansion(dir.path, dir.listing(), needle, ignore_case);
            let next = pool.after(Move::HandIn(at), needle, ignore_case);
            &&& found.subdirs == roots(dir.shown_dirs())
            &&& shows(frontier.handed_in(found.subdirs), next)
            &&& next.matches == pool.matches + found.matches
            &&& next.complaints == pool.complaints + complaint_lines(found.complaint)
        }),
{
    let dir = pool.in_flight[at];
    let found = expansion(dir.path, dir.listing(), needle, ignore_case);
    let next = pool.after(Move::HandIn(at), needle, ignore_case);
    lemma_entries(dir);
    assert(found.matches =~= reported(dir.shown(), needle, ignore_case));
    assert(found.subdirs =~= roots(dir.shown_dirs()));
    assert(roots(next.pending) =~= frontier.pending + found.subdirs);
    assert(complaint_lines(found.complaint) =~= dir.own_complaint());
}

} // verus!
