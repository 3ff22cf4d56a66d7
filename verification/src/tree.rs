//! Directory trees as values: what a search is entitled to find.

use vstd::prelude::*;
use crate::path::{ends_with, Path, PathView};

verus! {

/// The type tag of an entry: a directory, or anything else.
#[derive(Clone, Copy, Debug, PartialEq, Eq)]
pub enum Kind {
    File,
    Directory,
}

/// One entry of a directory, as the file system reports it: its path, which
/// ends in its own name, and its type tag.
#[derive(Clone, Debug, PartialEq, Eq)]
pub struct Entry {
    pub path: Path,
    pub kind: Kind,
}

/// An `Entry` as plain values.
pub struct EntryView {
    pub path: PathView,
    pub kind: Kind,
}

impl View for Entry {
    type V = EntryView;

    open spec fn view(&self) -> EntryView {
        EntryView { path: self.path@, kind: self.kind }
    }
}

/// An entry together with everything below it.
pub enum Tree {
    File { path: PathView },
    Directory { path: PathView, entries: Seq<Tree> },
}

/// The entry at the top of a tree.
pub open spec fn entry_of(tree: Tree) -> EntryView {
    match tree {
        Tree::File { path } => EntryView { path, kind: Kind::File },
        Tree::Directory { path, .. } => EntryView { path, kind: Kind::Directory },
    }
}

/// What reading a directory with these entries reports, in order.
pub open spec fn listing(entries: Seq<Tree>) -> Seq<EntryView> {
    entries.map_values(|tree: Tree| entry_of(tree))
}

/// The paths of the entries, at any depth, that are not directories: each
/// directory's contents stand where the directory stands among its siblings.
pub open spec fn files(entries: Seq<Tree>) -> Seq<PathView>
    decreases entries, 1nat,
{
    if entries.len() == 0 {
        Seq::empty()
    } else {
        files_below(entries[0]) + files(entries.drop_first())
    }
}

/// The files of one tree: itself, or those of its entries.
pub open spec fn files_below(tree: Tree) -> Seq<PathView>
    decreases tree, 0nat,
{
    match tree {
        Tree::File { path } => seq![path],
        Tree::Directory { entries, .. } => files(entries),
    }
}

/// The test that a path ends with `name`.
pub open spec fn ending(name: PathView) -> spec_fn(PathView) -> bool {
    |path: PathView| ends_with(path, name)
}

/// The files whose path ends with `name`, in the order of `files`.
pub open spec fn matching(entries: Seq<Tree>, name: PathView) -> Seq<PathView> {
    files(entries).filter(ending(name))
}

/// Whether an entry among these, or below one of them at any depth, is no
/// directory and has this path.
pub open spec fn occurs(entries: Seq<Tree>, path: PathView) -> bool
    decreases entries, 1nat,
{
    exists|i: int| 0 <= i < entries.len() && occurs_below(#[trigger] entries[i], path)
}

/// Whether the tree is a file with this path, or a directory with such a
/// file below it.
pub open spec fn occurs_below(tree: Tree, path: PathView) -> bool
    decreases tree, 0nat,
{
    match tree {
        Tree::File { path: own } => own == path,
        Tree::Directory { entries, .. } => occurs(entries, path),
    }
}

/// The number of directories among the entries, at any depth.
pub open spec fn directories(entries: Seq<Tree>) -> nat
    decreases entries, 1nat,
{
    if entries.len() == 0 {
        0
    } else {
        directories_below(entries[0]) + directories(entries.drop_first())
    }
}

/// The number of directories in one tree, itself included.
pub open spec fn directories_below(tree: Tree) -> nat
    decreases tree, 0nat,
{
    match tree {
        Tree::File { .. } => 0,
        Tree::Directory { entries, .. } => 1 + directories(entries),
    }
}

/// The files of a forest are the entries that occur in it and are no
/// directories: nothing more, and none left out.
pub proof fn lemma_files_occur(entries: Seq<Tree>, path: PathView)
    ensures
        files(entries).contains(path) <==> occurs(entries, path),
    decreases entries,
{
    if entries.len() > 0 {
        reveal_with_fuel(files, 2);
        reveal_with_fuel(occurs, 2);
        let first = entries[0];
        let others = entries.drop_first();
        lemma_files_occur(others, path);
        match first {
            Tree::File { path: own } => {
                assert(files_below(first)[0] == own);
            },
            Tree::Directory { entries: below, .. } => {
                lemma_files_occur(below, path);
            },
        }
        assert(files_below(first).contains(path) <==> occurs_below(first, path));
        vstd::seq_lib::lemma_seq_concat_contains_all_elements(
            files_below(first),
            files(others),
            path,
        );
        assert(occurs(entries, path) <==> occurs_below(first, path) || occurs(others, path)) by {
            if occurs(others, path) {
                let j = choose|j: int| 0 <= j < others.len() && occurs_below(others[j], path);
                assert(entries[j + 1] == others[j]);
            }
            if occurs(entries, path) && !occurs_below(first, path) {
                let i = choose|i: int| 0 <= i < entries.len() && occurs_below(entries[i], path);
                assert(others[i - 1] == entries[i]);
            }
        }
    }
}

/// A path is among the matches exactly when it is the path of an entry, at
/// any depth, that is no directory, and ends with the name. A directory is
/// never among them, whatever its name.
pub proof fn lemma_matching_exact(entries: Seq<Tree>, name: PathView)
    ensures
        forall|path: PathView|
            #[trigger] matching(entries, name).contains(path) <==> occurs(entries, path)
                && ends_with(path, name),
{
    let all = files(entries);
    let kept = matching(entries, name);
    assert forall|path: PathView|
        #[trigger] kept.contains(path) <==> occurs(entries, path) && ends_with(path, name) by {
        lemma_files_occur(entries, path);
        if kept.contains(path) {
            all.lemma_filter_contains_rev(ending(name), path);
            let k = choose|k: int| 0 <= k < kept.len() && kept[k] == path;
            all.lemma_filter_pred(ending(name), k);
        }
        if all.contains(path) && ends_with(path, name) {
            let i = choose|i: int| 0 <= i < all.len() && all[i] == path;
            all.lemma_filter_contains(ending(name), i);
        }
    }
}

/// Where no file of the forest ends with the name, nothing matches.
pub proof fn lemma_none_matching(entries: Seq<Tree>, name: PathView)
    requires
        forall|path: PathView| occurs(entries, path) ==> !ends_with(path, name),
    ensures
        matching(entries, name) == Seq::<PathView>::empty(),
{
    let kept = matching(entries, name);
    lemma_matching_exact(entries, name);
    if kept.len() > 0 {
        assert(kept.contains(kept[0]));
    }
    assert(kept =~= Seq::empty());
}

} // verus!
