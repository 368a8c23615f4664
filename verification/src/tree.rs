//! A directory tree held in memory: what a file system shows to a search
//! that starts at one directory.

use vstd::prelude::*;
use crate::worker::{complaint, paths, subdirs, Entry, EntryView};

verus! {

/// A directory with everything below it, as plain values.
pub struct TreeView {
    /// The directory's full path.
    pub path: Seq<char>,
    /// The full paths of the entries in it that are no directories.
    pub files: Seq<Seq<char>>,
    /// The directories in it.
    pub dirs: Seq<TreeView>,
    /// Why the directory cannot be listed, if it cannot.
    pub failure: Option<Seq<char>>,
}

/// The paths of the directories `dirs` themselves.
pub open spec fn roots(dirs: Seq<TreeView>) -> Seq<Seq<char>> {
    dirs.map_values(|d: TreeView| d.path)
}

/// The paths of all entries that a search finds below the directories
/// `dirs`, the directories themselves not counted.
pub open spec fn below_each(dirs: Seq<TreeView>) -> Seq<Seq<char>>
    decreases dirs,
{
    if dirs.len() == 0 {
        Seq::empty()
    } else {
        below_each(dirs.drop_last()) + dirs.last().below()
    }
}

/// The complaints that a search of the directories `dirs` gives.
pub open spec fn complaints_each(dirs: Seq<TreeView>) -> Seq<Seq<char>>
    decreases dirs,
{
    if dirs.len() == 0 {
        Seq::empty()
    } else {
        complaints_each(dirs.drop_last()) + dirs.last().complaints()
    }
}

/// The paths of the directories that a search of the directories `dirs`
/// lists: these and those that it reaches below them.
pub open spec fn reached_each(dirs: Seq<TreeView>) -> Seq<Seq<char>>
    decreases dirs,
{
    if dirs.len() == 0 {
        Seq::empty()
    } else {
        reached_each(dirs.drop_last()) + dirs.last().reached()
    }
}

impl TreeView {
    /// Whether the directory can be listed.
    pub open spec fn readable(self) -> bool {
        self.failure is None
    }

    /// The entries of this directory, as a listing shows them: the files,
    /// then the directories.
    pub open spec fn entries(self) -> Seq<EntryView> {
        self.files.map_values(|path: Seq<char>| EntryView { path, is_dir: false })
            + self.dirs.map_values(|d: TreeView| EntryView { path: d.path, is_dir: true })
    }

    /// What listing this directory gives.
    pub open spec fn listing(self) -> Result<Seq<EntryView>, Seq<char>> {
        match self.failure {
            Some(cause) => Err(cause),
            None => Ok(self.entries()),
        }
    }

    /// The paths of the entries that a listing of this directory shows.
    pub open spec fn shown(self) -> Seq<Seq<char>> {
        if self.readable() {
            self.files + roots(self.dirs)
        } else {
            Seq::empty()
        }
    }

    /// The directories that a listing of this directory shows.
    pub open spec fn shown_dirs(self) -> Seq<TreeView> {
        if self.readable() {
            self.dirs
        } else {
            Seq::empty()
        }
    }

    /// The complaint that listing this directory gives, if it gives one.
    pub open spec fn own_complaint(self) -> Seq<Seq<char>> {
        match self.failure {
            Some(cause) => seq![complaint(self.path, cause)],
            None => Seq::empty(),
        }
    }

    /// The paths of all entries that a search finds below this directory:
    /// what its listing shows, and what is below the directories in it.
    /// Nothing is found below a directory that cannot be listed.
    pub open spec fn below(self) -> Seq<Seq<char>>
        decreases self,
    {
        if self.readable() {
            self.files + roots(self.dirs) + below_each(self.dirs)
        } else {
            Seq::empty()
        }
    }

    /// The complaints that a search of this directory gives: one for each
    /// directory that it reaches and cannot list.
    pub open spec fn complaints(self) -> Seq<Seq<char>>
        decreases self,
    {
        match self.failure {
            Some(cause) => seq![complaint(self.path, cause)],
            None => complaints_each(self.dirs),
        }
    }

    /// The paths of the directories that a search of this directory lists:
    /// this one, and those that it reaches below it. It reaches nothing
    /// through a directory that cannot be listed.
    pub open spec fn reached(self) -> Seq<Seq<char>>
        decreases self,
    {
        if self.readable() {
            seq![self.path] + reached_each(self.dirs)
        } else {
            seq![self.path]
        }
    }
}

/// A directory with everything below it.
#[derive(Debug, PartialEq, Eq)]
pub struct DirTree {
    /// The directory's full path.
    pub path: String,
    /// The full paths of the entries in it that are no directories.
    pub files: Vec<String>,
    /// The directories in it.
    pub dirs: Vec<DirTree>,
    /// Why the directory cannot be listed, if it cannot.
    pub failure: Option<String>,
}

/// The directories `dirs` as plain values.
pub open spec fn tree_views(dirs: Seq<DirTree>) -> Seq<TreeView>
    decreases dirs,
{
    if dirs.len() == 0 {
        Seq::empty()
    } else {
        tree_views(dirs.drop_last()).push(dirs.last()@)
    }
}

impl View for DirTree {
    type V = TreeView;

    open spec fn view(&self) -> TreeView
        decreases self,
    {
        TreeView {
            path: self.path@,
            files: self.files.deep_view(),
            dirs: tree_views(self.dirs@),
            failure: match self.failure {
                Some(cause) => Some(cause@),
                None => None,
            },
        }
    }
}

/// The views of directories stand in the order of the directories.
pub proof fn lemma_tree_views(dirs: Seq<DirTree>)
    ensures
        tree_views(dirs).len() == dirs.len(),
        forall|i: int| 0 <= i < dirs.len() ==> (#[trigger] tree_views(dirs)[i]) == dirs[i]@,
    decreases dirs.len(),
{
    if dirs.len() > 0 {
        lemma_tree_views(dirs.drop_last());
        assert(tree_views(dirs) == tree_views(dirs.drop_last()).push(dirs.last()@));
    }
}

/// The listing of a directory shows the paths of its files and directories,
/// and of these the directories are searched next.
pub proof fn lemma_entries(tree: TreeView)
    ensures
        paths(tree.entries()) == tree.files + roots(tree.dirs),
        subdirs(tree.entries()) == roots(tree.dirs),
{
    let files = tree.files.map_values(|path: Seq<char>| EntryView { path, is_dir: false });
    let dirs = tree.dirs.map_values(|d: TreeView| EntryView { path: d.path, is_dir: true });
    let is_dir = |e: EntryView| e.is_dir;
    assert(paths(tree.entries()) =~= tree.files + roots(tree.dirs));
    assert(files.filter(is_dir) == Seq::<EntryView>::empty()) by {
        lemma_filter_none(files, is_dir);
    }
    assert(dirs.filter(is_dir) == dirs) by {
        lemma_filter_all(dirs, is_dir);
    }
    Seq::filter_distributes_over_add(files, dirs, is_dir);
    assert(files.filter(is_dir) + dirs.filter(is_dir) =~= dirs);
    assert(paths(dirs) =~= roots(tree.dirs));
}

/// A filter that every item passes leaves the sequence as it is.
proof fn lemma_filter_all<A>(s: Seq<A>, pred: spec_fn(A) -> bool)
    requires
        forall|i: int| 0 <= i < s.len() ==> pred(#[trigger] s[i]),
    ensures
        s.filter(pred) == s,
    decreases s.len(),
{
    reveal(Seq::filter);
    if s.len() > 0 {
        lemma_filter_all(s.drop_last(), pred);
        assert(s.drop_last().push(s.last()) =~= s);
    }
}

/// A filter that no item passes leaves nothing.
proof fn lemma_filter_none<A>(s: Seq<A>, pred: spec_fn(A) -> bool)
    requires
        forall|i: int| 0 <= i < s.len() ==> !pred(#[trigger] s[i]),
    ensures
        s.filter(pred) == Seq::<A>::empty(),
    decreases s.len(),
{
    reveal(Seq::filter);
    if s.len() > 0 {
        lemma_filter_none(s.drop_last(), pred);
    }
}

impl DirTree {
    /// Lists the directory: its entries, the files first, or the cause for
    /// which it cannot be listed.
    pub fn listing(&self) -> (r: Result<Vec<Entry>, String>)
        ensures
            crate::worker::listing_view(r) == self@.listing(),
    {
        match &self.failure {
            Some(cause) => Err(cause.clone()),
            None => {
                let mut entries: Vec<Entry> = Vec::new();
                let ghost files = self@.files.map_values(
                    |path: Seq<char>| EntryView { path, is_dir: false },
                );
                let mut i: usize = 0;
                while i < self.files.len()
                    invariant
                        i <= self.files.len(),
                        files == self@.files.map_values(
                            |path: Seq<char>| EntryView { path, is_dir: false },
                        ),
                        entries.deep_view() == files.take(i as int),
                    decreases self.files.len() - i,
                {
                    let ghost before = entries.deep_view();
                    let entry = Entry { path: self.files[i].clone(), is_dir: false };
                    assert(entry.deep_view() == files[i as int]);
                    entries.push(entry);
                    i += 1;
                    assert(entries.deep_view() =~= before.push(entry.deep_view()));
                    assert(entries.deep_view() =~= files.take(i as int));
                }
                assert(files.take(i as int) =~= files);
                let ghost dirs = self@.dirs.map_values(
                    |d: TreeView| EntryView { path: d.path, is_dir: true },
                );
                proof {
                    lemma_tree_views(self.dirs@);
                }
                let mut j: usize = 0;
                while j < self.dirs.len()
                    invariant
                        j <= self.dirs.len(),
                        self@.dirs.len() == self.dirs.len(),
                        forall|k: int| 0 <= k < self.dirs.len() ==> (#[trigger] self@.dirs[k])
                            == self.dirs[k]@,
                        dirs == self@.dirs.map_values(
                            |d: TreeView| EntryView { path: d.path, is_dir: true },
                        ),
                        entries.deep_view() == files + dirs.take(j as int),
                    decreases self.dirs.len() - j,
                {
                    let ghost before = entries.deep_view();
                    let entry = Entry { path: self.dirs[j].path.clone(), is_dir: true };
                    assert(entry.deep_view() == dirs[j as int]);
                    entries.push(entry);
                    j += 1;
                    assert(entries.deep_view() =~= before.push(entry.deep_view()));
                    assert(entries.deep_view() =~= files + dirs.take(j as int));
                }
                assert(dirs.take(j as int) =~= dirs);
                Ok(entries)
            },
        }
    }
}

} // verus!
