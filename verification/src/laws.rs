//! What holds of every search, whatever the tree, the target, the number of
//! workers and the order in which the workers get to the directories.

use vstd::prelude::*;
use crate::hits;
use crate::pattern::{accepts, folded};
use crate::pool::{
    lemma_finished_is_complete, lemma_start_conserves, lemma_step_conserves, lemma_steps_left,
    owed_listings, play, Move, Pool,
};
use crate::text::lowercase;
use crate::tree::{below_each, reached_each, roots, TreeView};
use crate::worker::reported;

verus! {

/// Whatever steps a pool makes, nothing is lost and nothing is made up, and
/// the steps made and the steps still to make add up to two for each
/// directory of the tree.
pub proof fn every_course_conserves(
    root: TreeView,
    steps: Seq<Move>,
    workers: nat,
    needle: Seq<char>,
    ignore_case: bool,
)
    requires
        play(root, steps, workers, needle, ignore_case) is Some,
    ensures
        play(root, steps, workers, needle, ignore_case)->Some_0.conserves(
            root,
            needle,
            ignore_case,
        ),
        steps.len() + play(root, steps, workers, needle, ignore_case)->Some_0.steps_left() == 2
            * root.reached().len(),
    decreases steps.len(),
{
    if steps.len() == 0 {
        lemma_start_conserves(root, needle, ignore_case);
    } else {
        every_course_conserves(root, steps.drop_last(), workers, needle, ignore_case);
        let before = play(root, steps.drop_last(), workers, needle, ignore_case)->Some_0;
        lemma_step_conserves(before, steps.last(), workers, root, needle, ignore_case);
    }
}

/// A search that has come to its end has listed every directory that can be
/// reached from the root, once for each time it stands in the tree, has
/// reported every entry below the root whose path holds the target, once
/// for each time the entry stands in the tree, and has complained once of
/// each directory that it reached and could not list: in whatever order the
/// workers took the directories and handed them in, and however many
/// workers there were.
pub proof fn every_finished_search_is_complete(
    root: TreeView,
    steps: Seq<Move>,
    workers: nat,
    target: Seq<char>,
    ignore_case: bool,
)
    requires
        play(root, steps, workers, folded(target, ignore_case), ignore_case) matches Some(pool)
            && pool.finished(),
    ensures
        ({
            let pool = play(root, steps, workers, folded(target, ignore_case), ignore_case)->Some_0;
            &&& pool.listed.to_multiset() == root.reached().to_multiset()
            &&& pool.matches.to_multiset() == hits(root, target, ignore_case).to_multiset()
            &&& pool.complaints.to_multiset() == root.complaints().to_multiset()
        }),
        steps.len() == 2 * root.reached().len(),
{
    let needle = folded(target, ignore_case);
    let pool = play(root, steps, workers, needle, ignore_case)->Some_0;
    every_course_conserves(root, steps, workers, needle, ignore_case);
    lemma_finished_is_complete(pool, root, needle, ignore_case);
    lemma_steps_left(pool);
}

/// The paths of directories are among the paths of the directories that a
/// search of them lists.
proof fn lemma_roots_are_reached(dirs: Seq<TreeView>, path: Seq<char>)
    ensures
        roots(dirs).to_multiset().count(path) <= reached_each(dirs).to_multiset().count(path),
    decreases dirs.len(),
{
    broadcast use vstd::multiset::group_multiset_axioms;

    if dirs.len() == 0 {
        assert(roots(dirs) =~= reached_each(dirs));
    } else {
        let front = dirs.drop_last();
        let last = dirs.last();
        lemma_roots_are_reached(front, path);
        assert(roots(dirs) =~= roots(front).push(last.path));
        vstd::seq_lib::to_multiset_build(roots(front), last.path);
        let further = if last.readable() {
            reached_each(last.dirs)
        } else {
            Seq::empty()
        };
        assert(last.reached() =~= seq![last.path] + further);
        assert(reached_each(dirs) =~= reached_each(front).push(last.path) + further);
        vstd::seq_lib::to_multiset_build(reached_each(front), last.path);
        vstd::seq_lib::lemma_multiset_commutative(reached_each(front).push(last.path), further);
    }
}

/// No directory is in two places, and none is in one place twice: in a tree
/// whose directories have paths that differ from one another, the
/// directories that were listed, those that wait and those that are in
/// flight are all different, at every moment of a search.
pub proof fn no_directory_is_in_two_places(
    pool: Pool,
    root: TreeView,
    needle: Seq<char>,
    ignore_case: bool,
)
    requires
        pool.conserves(root, needle, ignore_case),
        root.reached().no_duplicates(),
    ensures
        (pool.listed + roots(pool.pending) + roots(pool.in_flight)).no_duplicates(),
{
    broadcast use vstd::multiset::group_multiset_axioms;

    let places = pool.listed + roots(pool.pending) + roots(pool.in_flight);
    vstd::seq_lib::lemma_multiset_commutative(pool.listed, roots(pool.pending));
    vstd::seq_lib::lemma_multiset_commutative(
        pool.listed + roots(pool.pending),
        roots(pool.in_flight),
    );
    root.reached().lemma_multiset_has_no_duplicates();
    assert forall|path: Seq<char>| places.to_multiset().contains(path) implies places.to_multiset().count(
        path,
    ) == 1 by {
        lemma_roots_are_reached(pool.pending, path);
        lemma_roots_are_reached(pool.in_flight, path);
        let all = pool.listed.to_multiset().add(owed_listings(pool.pending)).add(
            owed_listings(pool.in_flight),
        );
        assert(all.count(path) == pool.listed.to_multiset().count(path) + owed_listings(
            pool.pending,
        ).count(path) + owed_listings(pool.in_flight).count(path));
        assert(places.to_multiset().count(path) == pool.listed.to_multiset().count(path) + roots(
            pool.pending,
        ).to_multiset().count(path) + roots(pool.in_flight).to_multiset().count(path));
        assert(all == root.reached().to_multiset());
        assert(root.reached().to_multiset().count(path) <= 1);
    }
    places.lemma_multiset_has_no_duplicates_conv();
}

/// A search that is not over can go on: with one worker or more, some step
/// can be made. No worker is ever told that the search is over while a
/// directory waits or is in flight.
pub proof fn unfinished_search_can_go_on(pool: Pool, workers: nat)
    requires
        workers >= 1,
        !pool.finished(),
    ensures
        exists|step: Move| pool.allows(workers, step),
{
    if pool.in_flight.len() > 0 {
        assert(pool.allows(workers, Move::HandIn(0)));
    } else {
        assert(pool.allows(workers, Move::Take(0)));
    }
}

/// Every search comes to its end: from wherever a pool of one worker or more
/// has got to, some further steps finish the search.
pub proof fn every_search_can_finish(
    root: TreeView,
    steps: Seq<Move>,
    workers: nat,
    needle: Seq<char>,
    ignore_case: bool,
) -> (rest: Seq<Move>)
    requires
        workers >= 1,
        play(root, steps, workers, needle, ignore_case) is Some,
    ensures
        play(root, steps + rest, workers, needle, ignore_case) matches Some(pool)
            && pool.finished(),
    decreases play(root, steps, workers, needle, ignore_case)->Some_0.steps_left(),
{
    let pool = play(root, steps, workers, needle, ignore_case)->Some_0;
    every_course_conserves(root, steps, workers, needle, ignore_case);
    lemma_steps_left(pool);
    if pool.finished() {
        assert(steps + Seq::<Move>::empty() =~= steps);
        Seq::empty()
    } else {
        unfinished_search_can_go_on(pool, workers);
        let step = choose|step: Move| pool.allows(workers, step);
        let longer = steps.push(step);
        assert(longer.drop_last() =~= steps);
        lemma_step_conserves(pool, step, workers, root, needle, ignore_case);
        lemma_steps_left(pool.after(step, needle, ignore_case));
        let rest = every_search_can_finish(root, longer, workers, needle, ignore_case);
        assert(steps + (seq![step] + rest) =~= longer + rest);
        seq![step] + rest
    }
}

/// The number of workers does not change what a search reports: two
/// searches of one tree for one target that have come to their end, by
/// pools of any two sizes and in any two orders, have reported the same
/// paths equally often, and made the same complaints.
pub proof fn worker_count_does_not_matter(
    root: TreeView,
    target: Seq<char>,
    ignore_case: bool,
    workers_a: nat,
    steps_a: Seq<Move>,
    workers_b: nat,
    steps_b: Seq<Move>,
)
    requires
        play(root, steps_a, workers_a, folded(target, ignore_case), ignore_case) matches Some(pool)
            && pool.finished(),
        play(root, steps_b, workers_b, folded(target, ignore_case), ignore_case) matches Some(pool)
            && pool.finished(),
    ensures
        ({
            let a = play(root, steps_a, workers_a, folded(target, ignore_case), ignore_case)->Some_0;
            let b = play(root, steps_b, workers_b, folded(target, ignore_case), ignore_case)->Some_0;
            &&& a.matches.to_multiset() == b.matches.to_multiset()
            &&& a.complaints.to_multiset() == b.complaints.to_multiset()
            &&& a.listed.to_multiset() == b.listed.to_multiset()
        }),
        steps_a.len() == steps_b.len(),
{
    every_finished_search_is_complete(root, steps_a, workers_a, target, ignore_case);
    every_finished_search_is_complete(root, steps_b, workers_b, target, ignore_case);
}

/// Among the paths `all`, a path is reported as often as it stands there if
/// the search accepts it, and never if it does not.
pub proof fn each_entry_counts_once(
    all: Seq<Seq<char>>,
    needle: Seq<char>,
    ignore_case: bool,
    path: Seq<char>,
)
    ensures
        reported(all, needle, ignore_case).to_multiset().count(path) == if accepts(
            needle,
            ignore_case,
            path,
        ) {
            all.to_multiset().count(path)
        } else {
            0
        },
    decreases all.len(),
{
    broadcast use vstd::multiset::group_multiset_axioms;

    let wanted = |p: Seq<char>| accepts(needle, ignore_case, p);
    if all.len() == 0 {
        all.to_multiset_ensures();
        assert(all.filter(wanted) =~= all);
        vstd::multiset::lemma_multiset_empty_len(all.to_multiset());
    } else {
        let front = all.drop_last();
        let last = all.last();
        each_entry_counts_once(front, needle, ignore_case, path);
        assert(all =~= front.push(last));
        front.lemma_filter_push(last, wanted);
        vstd::seq_lib::to_multiset_build(front, last);
        if wanted(last) {
            vstd::seq_lib::to_multiset_build(front.filter(wanted), last);
        }
    }
}

/// No path is reported twice: where the entries of the tree have paths that
/// differ from one another, as those of a directory tree do, a search that
/// reported what a search of the tree reports has reported no path more
/// than once.
pub proof fn no_path_is_reported_twice(
    emitted: Seq<Seq<char>>,
    root: TreeView,
    target: Seq<char>,
    ignore_case: bool,
)
    requires
        root.below().no_duplicates(),
        emitted.to_multiset() == hits(root, target, ignore_case).to_multiset(),
    ensures
        emitted.no_duplicates(),
{
    broadcast use vstd::multiset::group_multiset_axioms;

    let needle = folded(target, ignore_case);
    root.below().lemma_multiset_has_no_duplicates();
    assert forall|path: Seq<char>| emitted.to_multiset().contains(path) implies emitted.to_multiset().count(
        path,
    ) == 1 by {
        each_entry_counts_once(root.below(), needle, ignore_case, path);
    }
    emitted.lemma_multiset_has_no_duplicates_conv();
}

/// The tree `tree` with every path in it in lower case.
pub open spec fn lowered(tree: TreeView) -> TreeView
    decreases tree,
{
    TreeView {
        path: lowercase(tree.path),
        files: lowered_paths(tree.files),
        dirs: lowered_each(tree.dirs),
        failure: tree.failure,
    }
}

/// The directories `dirs` with every path in them in lower case.
pub open spec fn lowered_each(dirs: Seq<TreeView>) -> Seq<TreeView>
    decreases dirs,
{
    if dirs.len() == 0 {
        Seq::empty()
    } else {
        lowered_each(dirs.drop_last()).push(lowered(dirs.last()))
    }
}

/// The paths `all` in lower case.
pub open spec fn lowered_paths(all: Seq<Seq<char>>) -> Seq<Seq<char>> {
    all.map_values(|path: Seq<char>| lowercase(path))
}

/// Below a tree in lower case stand the paths of the tree, in lower case.
proof fn lemma_lowered_below(tree: TreeView)
    ensures
        lowered(tree).below() == lowered_paths(tree.below()),
    decreases tree,
{
    if tree.readable() {
        lemma_lowered_each(tree.dirs);
        assert(lowered(tree).below() =~= lowered_paths(tree.below()));
    } else {
        assert(lowered(tree).below() =~= lowered_paths(tree.below()));
    }
}

/// Below directories in lower case stand the paths of the directories, in
/// lower case.
proof fn lemma_lowered_each(dirs: Seq<TreeView>)
    ensures
        roots(lowered_each(dirs)) == lowered_paths(roots(dirs)),
        below_each(lowered_each(dirs)) == lowered_paths(below_each(dirs)),
    decreases dirs,
{
    if dirs.len() == 0 {
        assert(roots(lowered_each(dirs)) =~= lowered_paths(roots(dirs)));
        assert(below_each(lowered_each(dirs)) =~= lowered_paths(below_each(dirs)));
    } else {
        lemma_lowered_each(dirs.drop_last());
        lemma_lowered_below(dirs.last());
        let low = lowered_each(dirs);
        assert(low.drop_last() =~= lowered_each(dirs.drop_last()));
        assert(low.last() == lowered(dirs.last()));
        assert(roots(low) =~= roots(low.drop_last()).push(low.last().path));
        assert(roots(dirs) =~= roots(dirs.drop_last()).push(dirs.last().path));
        assert(lowered_paths(roots(dirs.drop_last()).push(dirs.last().path)) =~= lowered_paths(
            roots(dirs.drop_last()),
        ).push(lowercase(dirs.last().path)));
        assert(below_each(low) =~= lowered_paths(below_each(dirs)));
    }
}

/// To look for a needle in paths that were put in lower case, with case
/// kept, is to look for it in the paths themselves with case ignored.
proof fn lemma_reported_lowered(all: Seq<Seq<char>>, needle: Seq<char>)
    ensures
        reported(lowered_paths(all), needle, false) == lowered_paths(reported(all, needle, true)),
    decreases all.len(),
{
    let kept = |p: Seq<char>| accepts(needle, false, p);
    let ignored = |p: Seq<char>| accepts(needle, true, p);
    if all.len() == 0 {
        assert(lowered_paths(all) =~= all);
        assert(all.filter(kept) =~= all);
        assert(all.filter(ignored) =~= all);
    } else {
        let front = all.drop_last();
        let last = all.last();
        lemma_reported_lowered(front, needle);
        assert(all =~= front.push(last));
        assert(lowered_paths(all) =~= lowered_paths(front).push(lowercase(last)));
        lowered_paths(front).lemma_filter_push(lowercase(last), kept);
        front.lemma_filter_push(last, ignored);
        assert(lowered_paths(front.filter(ignored).push(last)) =~= lowered_paths(
            front.filter(ignored),
        ).push(lowercase(last)));
    }
}

/// A search that ignores case reports the paths that a search for the
/// target in lower case, with case kept, reports in the tree whose paths
/// were all put in lower case: the same paths in the same places, but for
/// their case.
pub proof fn ignoring_case_is_searching_in_lower_case(tree: TreeView, target: Seq<char>)
    ensures
        hits(lowered(tree), lowercase(target), false) == lowered_paths(hits(tree, target, true)),
{
    lemma_lowered_below(tree);
    lemma_reported_lowered(tree.below(), lowercase(target));
}

/// Among paths that are in lower case, ignoring case changes nothing.
proof fn lemma_reported_in_lower_case(all: Seq<Seq<char>>, needle: Seq<char>)
    requires
        forall|i: int| 0 <= i < all.len() ==> lowercase(#[trigger] all[i]) == all[i],
    ensures
        reported(all, needle, true) == reported(all, needle, false),
    decreases all.len(),
{
    let kept = |p: Seq<char>| accepts(needle, false, p);
    let ignored = |p: Seq<char>| accepts(needle, true, p);
    if all.len() == 0 {
        assert(all.filter(kept) =~= all);
        assert(all.filter(ignored) =~= all);
    } else {
        let front = all.drop_last();
        let last = all.last();
        lemma_reported_in_lower_case(front, needle);
        assert(all =~= front.push(last));
        front.lemma_filter_push(last, kept);
        front.lemma_filter_push(last, ignored);
    }
}

/// In a tree whose paths are all in lower case, a search that ignores case
/// reports what a search for the target in lower case reports with case
/// kept.
pub proof fn ignoring_case_changes_nothing_in_lower_case(tree: TreeView, target: Seq<char>)
    requires
        forall|i: int|
            0 <= i < tree.below().len() ==> lowercase(#[trigger] tree.below()[i])
                == tree.below()[i],
    ensures
        hits(tree, target, true) == hits(tree, lowercase(target), false),
{
    lemma_reported_in_lower_case(tree.below(), lowercase(target));
}

} // verus!
