//! Recursive search of a directory tree for entries whose path contains a
//! given text, by a pool of workers that share one frontier of directories
//! still to be expanded.

pub mod config;
pub mod frontier;
pub mod laws;
pub mod parse_args;
pub mod pattern;
pub mod pool;
pub mod text;
pub mod tree;
pub mod worker;

pub use crate::config::Config;

use vstd::prelude::*;
use crate::frontier::{Frontier, FrontierView, Next};
use crate::pattern::{folded, Pattern};
use crate::pool::{
    lemma_finished_is_complete, lemma_handing_in_is_a_step, lemma_start_conserves,
    lemma_step_conserves, lemma_steps_left, lemma_taking_is_a_step, shows, Move, Pool,
};
use crate::tree::{lemma_tree_views, roots, DirTree, TreeView};
use crate::worker::{expand, reported};

verus! {

/// The line that ends the output of a search that ran to its end.
pub const FINISHED: &'static str = "Finished Searching";

/// What a search has to say: the paths for the output channel and the
/// complaints for the error channel, each in the order in which the workers
/// came to them.
#[derive(Debug, PartialEq, Eq)]
pub struct Report {
    pub matches: Vec<String>,
    pub complaints: Vec<String>,
}

/// The paths that a search of `tree` for `target` reports: every entry below
/// the root whose path holds the target, with case set aside if
/// `ignore_case` says so.
pub open spec fn hits(tree: TreeView, target: Seq<char>, ignore_case: bool) -> Seq<Seq<char>> {
    reported(tree.below(), folded(target, ignore_case), ignore_case)
}

/// The tree `tree` as it stands at the path `dir`.
pub open spec fn rooted(tree: TreeView, dir: Seq<char>) -> TreeView {
    TreeView { path: dir, ..tree }
}

/// Whether two directories hold the same, whatever their own paths are.
spec fn same_contents(a: TreeView, b: TreeView) -> bool {
    a.files == b.files && a.dirs == b.dirs && a.failure == b.failure
}

/// Whether the directories `nodes` hold what the directories `dirs` hold,
/// one by one.
spec fn stand_for(nodes: Seq<&DirTree>, dirs: Seq<TreeView>) -> bool {
    &&& nodes.len() == dirs.len()
    &&& forall|i: int| 0 <= i < nodes.len() ==> same_contents(nodes[i]@, #[trigger] dirs[i])
}

/// Whether the frontier and the directories that stand behind its paths are
/// those of the search `pool`.
spec fn tracks(frontier: FrontierView, behind: Seq<&DirTree>, pool: Pool) -> bool {
    shows(frontier, pool) && stand_for(behind, pool.pending)
}

/// Lets the directories that a listing of `node` shows wait behind the
/// others.
fn queue_dirs<'a>(
    behind: &mut Vec<&'a DirTree>,
    node: &'a DirTree,
    Ghost(waiting): Ghost<Seq<TreeView>>,
)
    requires
        stand_for(old(behind)@, waiting),
    ensures
        stand_for(final(behind)@, waiting + node@.shown_dirs()),
{
    if node.failure.is_none() {
        proof {
            lemma_tree_views(node.dirs@);
            assert(waiting + node@.dirs.take(0) =~= waiting);
        }
        let mut i: usize = 0;
        while i < node.dirs.len()
            invariant
                i <= node.dirs.len(),
                node@.dirs.len() == node.dirs.len(),
                forall|k: int| 0 <= k < node.dirs.len() ==> (#[trigger] node@.dirs[k])
                    == node.dirs[k]@,
                stand_for(behind@, waiting + node@.dirs.take(i as int)),
            decreases node.dirs.len() - i,
        {
            let ghost before = waiting + node@.dirs.take(i as int);
            behind.push(&node.dirs[i]);
            i += 1;
            assert(waiting + node@.dirs.take(i as int) =~= before.push(node@.dirs[i - 1]));
        }
        assert(node@.dirs.take(i as int) =~= node@.dirs);
    } else {
        assert(waiting + node@.shown_dirs() =~= waiting);
    }
}

/// Searches `tree`, which stands for what the file system holds at the
/// search directory of `config`, as the pool of `config` does: in rounds, in
/// each of which one worker after the other takes a directory as long as
/// one waits, and then each hands in what it found. The order of the report depends on the
/// number of workers; what is in it does not. The root of `tree` goes by the
/// path that `config` gives to the search directory, not by its own.
pub fn run(config: Config, tree: &DirTree) -> (report: Report)
    requires
        config@.workers >= 1,
    ensures
        report.matches.deep_view().to_multiset() == hits(
            tree@,
            config@.target,
            config@.ignore_case,
        ).to_multiset(),
        report.complaints.deep_view().to_multiset() == rooted(
            tree@,
            config@.dir,
        ).complaints().to_multiset(),
{
    let pattern = Pattern::new(config.target(), config.ignore_case());
    let ghost needle = pattern.needle();
    let ghost fold = pattern.ignores_case();
    let ghost root = rooted(tree@, config@.dir);
    let workers = config.workers();
    let mut frontier = Frontier::new();
    frontier.push(String::from_str(config.dir()));
    let mut behind: Vec<&DirTree> = Vec::new();
    behind.push(tree);
    let mut report = Report { matches: Vec::new(), complaints: Vec::new() };
    let ghost mut pool = Pool::start(root);
    proof {
        lemma_start_conserves(root, needle, fold);
        assert(frontier@.pending =~= roots(pool.pending));
        assert(report.matches.deep_view() =~= pool.matches);
        assert(report.complaints.deep_view() =~= pool.complaints);
        assert(root.below() == tree@.below());
    }
    while !frontier.is_finished()
        invariant
            workers >= 1,
            pool.in_flight.len() == 0,
            tracks(frontier@, behind@, pool),
            report.matches.deep_view() == pool.matches,
            report.complaints.deep_view() == pool.complaints,
            pool.conserves(root, needle, fold),
            needle == pattern.needle(),
            fold == pattern.ignores_case(),
        decreases pool.steps_left(),
    {
        let ghost steps_before = pool.steps_left();
        let mut paths: Vec<String> = Vec::new();
        let mut nodes: Vec<&DirTree> = Vec::new();
        let mut taking = true;
        assert(paths.deep_view() =~= roots(pool.in_flight));
        while taking && nodes.len() < workers
            invariant
                workers >= 1,
                nodes.len() <= workers,
                tracks(frontier@, behind@, pool),
                pool.conserves(root, needle, fold),
                stand_for(nodes@, pool.in_flight),
                paths.deep_view() == roots(pool.in_flight),
                paths.len() == nodes.len(),
                report.matches.deep_view() == pool.matches,
                report.complaints.deep_view() == pool.complaints,
                pool.steps_left() + nodes.len() == steps_before,
                nodes.len() == 0 ==> frontier@.pending.len() > 0,
                !taking ==> !frontier@.can_take(),
            decreases frontier@.pending.len() + (if taking { 1nat } else { 0nat }),
        {
            let ghost asked = frontier@;
            match frontier.next() {
                Next::Expand(path) => {
                    let ghost taken = Move::Take(pool.pending.len() - 1);
                    let ghost before = pool;
                    let node = behind.pop().unwrap();
                    proof {
                        lemma_taking_is_a_step(asked, pool, workers as nat, needle, fold);
                        lemma_step_conserves(pool, taken, workers as nat, root, needle, fold);
                        pool = pool.after(taken, needle, fold);
                    }
                    let ghost old_paths = paths.deep_view();
                    paths.push(path);
                    nodes.push(node);
                    assert(paths.deep_view() =~= old_paths.push(path@));
                    assert(roots(pool.in_flight) =~= roots(before.in_flight).push(path@));
                },
                Next::Wait => {
                    taking = false;
                },
                Next::Done => {
                    taking = false;
                },
            }
        }
        let ghost in_hand = pool.in_flight;
        let mut k: usize = 0;
        assert(in_hand.skip(0) =~= in_hand);
        while k < nodes.len()
            invariant
                k <= nodes.len(),
                paths.len() == nodes.len(),
                tracks(frontier@, behind@, pool),
                stand_for(nodes@, in_hand),
                pool.in_flight == in_hand.skip(k as int),
                paths.deep_view() == roots(in_hand),
                report.matches.deep_view() == pool.matches,
                report.complaints.deep_view() == pool.complaints,
                pool.conserves(root, needle, fold),
                pool.steps_left() + nodes.len() + k == steps_before,
                needle == pattern.needle(),
                fold == pattern.ignores_case(),
            decreases nodes.len() - k,
        {
            let node = nodes[k];
            let ghost before = pool;
            let ghost handed = Move::HandIn(0);
            let ghost dir = in_hand[k as int];
            assert(pool.in_flight[0] == dir);
            assert(same_contents(node@, dir));
            assert(paths[k as int]@ == dir.path) by {
                assert(paths.deep_view()[k as int] == roots(in_hand)[k as int]);
            }
            let listing = node.listing();
            let mut found = expand(paths[k].as_str(), &listing, &pattern);
            proof {
                assert(node@.listing() == dir.listing());
                lemma_handing_in_is_a_step(frontier@, pool, 0, workers as nat, needle, fold);
                lemma_step_conserves(pool, handed, workers as nat, root, needle, fold);
                pool = pool.after(handed, needle, fold);
                assert(before.in_flight.remove(0) =~= in_hand.skip(k + 1));
            }
            let ghost old_matches = report.matches.deep_view();
            let ghost new_matches = found.matches.deep_view();
            report.matches.append(&mut found.matches);
            assert(report.matches.deep_view() =~= old_matches + new_matches);
            let ghost old_complaints = report.complaints.deep_view();
            match found.complaint {
                Some(line) => {
                    report.complaints.push(line);
                    assert(report.complaints.deep_view() =~= old_complaints + seq![line@]);
                },
                None => {
                    assert(old_complaints =~= old_complaints + Seq::<Seq<char>>::empty());
                },
            }
            frontier.finish(found.subdirs);
            queue_dirs(&mut behind, node, Ghost(before.pending));
            assert(node@.shown_dirs() == dir.shown_dirs());
            k += 1;
        }
        proof {
            lemma_steps_left(pool);
        }
    }
    proof {
        lemma_finished_is_complete(pool, root, needle, fold);
    }
    report
}

} // verus!
