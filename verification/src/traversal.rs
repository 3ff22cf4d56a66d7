//! The walk held against a directory tree: what a caller gets who answers
//! every step from a file system that shows that tree.

use vstd::prelude::*;
use crate::find::{scan, start, supply, StepView, WalkView};
use crate::path::{
    ends_with, lemma_final_component, lemma_match_shares_final_component, PathView,
};
use crate::tree::{
    directories, ending, entry_of, files, lemma_matching_exact, lemma_none_matching, listing,
    matching, occurs, EntryView, Tree,
};

verus! {

/// A file system, as far as a search sees it: what reading each directory
/// gives, its entries in the order reported or a failure.
pub type FileSystem<E> = spec_fn(PathView) -> Result<Seq<EntryView>, E>;

/// Whether `fs` shows every directory among `entries`, at any depth, with
/// the entries that the tree gives it.
pub open spec fn shows<E>(fs: FileSystem<E>, entries: Seq<Tree>) -> bool
    decreases entries,
{
    forall|i: int|
        0 <= i < entries.len() ==> match #[trigger] entries[i] {
            Tree::File { .. } => true,
            Tree::Directory { path, entries: below } => fs(path) == Ok::<Seq<EntryView>, E>(
                listing(below),
            ) && shows(fs, below),
        }
}

/// Whether `fs` shows the directory `root` as holding `tree`, all the way
/// down.
pub open spec fn shows_below<E>(fs: FileSystem<E>, root: PathView, tree: Seq<Tree>) -> bool {
    fs(root) == Ok::<Seq<EntryView>, E>(listing(tree)) && shows(fs, tree)
}

/// Whether `fs` shows the directories among `entries` as far as it can read
/// them: a directory that it reads has the entries that the tree gives it,
/// and so on below; one that it cannot read is not held to the tree.
pub open spec fn shows_readable<E>(fs: FileSystem<E>, entries: Seq<Tree>) -> bool
    decreases entries,
{
    forall|i: int|
        0 <= i < entries.len() ==> match #[trigger] entries[i] {
            Tree::File { .. } => true,
            Tree::Directory { path, entries: below } => match fs(path) {
                Ok(listed) => listed == listing(below) && shows_readable(fs, below),
                Err(_) => true,
            },
        }
}

/// The failure of the first directory among `entries`, in the order of the
/// traversal, that `fs` cannot read. Nothing below such a directory is
/// looked at. `None` where every directory that is reached can be read.
pub open spec fn first_failure<E>(fs: FileSystem<E>, entries: Seq<Tree>) -> Option<E>
    decreases entries, 1nat,
{
    if entries.len() == 0 {
        None
    } else {
        match first_failure_below(fs, entries[0]) {
            Some(failure) => Some(failure),
            None => first_failure(fs, entries.drop_first()),
        }
    }
}

/// The first failure in one tree: that of the directory itself, or the first
/// among its entries.
pub open spec fn first_failure_below<E>(fs: FileSystem<E>, tree: Tree) -> Option<E>
    decreases tree, 0nat,
{
    match tree {
        Tree::File { .. } => None,
        Tree::Directory { path, entries } => match fs(path) {
            Ok(_) => first_failure(fs, entries),
            Err(failure) => Some(failure),
        },
    }
}

/// What a search for `name` below `root` comes to, over a file system that
/// may fail: the failure to read the root, else the first failure below it
/// in the order of the traversal, else the matches.
pub open spec fn outcome<E>(
    fs: FileSystem<E>,
    root: PathView,
    name: PathView,
    tree: Seq<Tree>,
) -> Result<Seq<PathView>, E> {
    match fs(root) {
        Err(failure) => Err(failure),
        Ok(_) => match first_failure(fs, tree) {
            Some(failure) => Err(failure),
            None => Ok(matching(tree, name)),
        },
    }
}

/// Carries a search on from `step`, answering each request to read a
/// directory with what `fs` holds for it, for at most `reads` requests.
/// `None` where the search still asks after that many.
pub open spec fn run<E>(
    step: StepView<E>,
    fs: FileSystem<E>,
    reads: nat,
) -> Option<Result<Seq<PathView>, E>>
    decreases reads,
{
    match step {
        StepView::Done(result) => Some(result),
        StepView::Read { dir, walk } => if reads == 0 {
            None
        } else {
            run(supply(walk, fs(dir)), fs, (reads - 1) as nat)
        },
    }
}

proof fn lemma_files_split(entries: Seq<Tree>, name: PathView)
    requires
        entries.len() > 0,
    ensures
        matching(entries, name) == match entries[0] {
            Tree::File { path } => if ending(name)(path) {
                seq![path]
            } else {
                Seq::empty()
            },
            Tree::Directory { entries: below, .. } => matching(below, name),
        } + matching(entries.drop_first(), name),
{
    let ahead = match entries[0] {
        Tree::File { path } => seq![path],
        Tree::Directory { entries: below, .. } => files(below),
    };
    assert(files(entries) == ahead + files(entries.drop_first())) by {
        reveal_with_fuel(files, 2);
    }
    Seq::filter_distributes_over_add(ahead, files(entries.drop_first()), ending(name));
    if let Tree::File { path } = entries[0] {
        reveal_with_fuel(Seq::filter, 2);
        assert(seq![path].drop_last() =~= Seq::<PathView>::empty());
        assert(seq![path].filter(ending(name)) =~= if ending(name)(path) {
            seq![path]
        } else {
            Seq::empty()
        });
    }
}

/// The entries that follow the first of a forest are shown as the forest is.
proof fn lemma_others_shown<E>(fs: FileSystem<E>, forest: Seq<Tree>)
    requires
        forest.len() > 0,
    ensures
        shows(fs, forest) ==> shows(fs, forest.drop_first()),
        shows_readable(fs, forest) ==> shows_readable(fs, forest.drop_first()),
{
    let others = forest.drop_first();
    if shows(fs, forest) {
        assert forall|i: int| 0 <= i < others.len() implies match #[trigger] others[i] {
            Tree::File { .. } => true,
            Tree::Directory { path, entries: below } => fs(path) == Ok::<Seq<EntryView>, E>(
                listing(below),
            ) && shows(fs, below),
        } by {
            assert(others[i] == forest[i + 1]);
        }
    }
    if shows_readable(fs, forest) {
        assert forall|i: int| 0 <= i < others.len() implies match #[trigger] others[i] {
            Tree::File { .. } => true,
            Tree::Directory { path, entries: below } => match fs(path) {
                Ok(listed) => listed == listing(below) && shows_readable(fs, below),
                Err(_) => true,
            },
        } by {
            assert(others[i] == forest[i + 1]);
        }
    }
}

/// A file system that shows a forest whole reads every directory of it.
proof fn lemma_shown_is_read<E>(fs: FileSystem<E>, forest: Seq<Tree>)
    requires
        shows(fs, forest),
    ensures
        shows_readable(fs, forest),
        first_failure(fs, forest) is None,
    decreases forest,
{
    if forest.len() > 0 {
        let others = forest.drop_first();
        lemma_others_shown(fs, forest);
        lemma_shown_is_read(fs, others);
        if let Tree::Directory { entries: below, .. } = forest[0] {
            lemma_shown_is_read(fs, below);
        }
        assert forall|i: int| 0 <= i < forest.len() implies match #[trigger] forest[i] {
            Tree::File { .. } => true,
            Tree::Directory { path, entries: below } => match fs(path) {
                Ok(listed) => listed == listing(below) && shows_readable(fs, below),
                Err(_) => true,
            },
        } by {
            if i > 0 {
                assert(forest[i] == others[i - 1]);
            }
        }
        assert(first_failure(fs, forest) is None) by {
            reveal_with_fuel(first_failure, 2);
        }
    }
}

/// Visiting the entries of a forest, and reading the directories in it, ends
/// with the first failure to read one. Where there is none it adds the
/// forest's matching files to those found and leaves the rest of the agenda
/// as it was.
proof fn lemma_visit<E>(
    fs: FileSystem<E>,
    name: PathView,
    forest: Seq<Tree>,
    rest: Seq<EntryView>,
    found: Seq<PathView>,
    reads: nat,
)
    requires
        shows_readable(fs, forest),
    ensures
        run(
            scan::<E>(WalkView { name, agenda: listing(forest) + rest, found }),
            fs,
            reads + directories(forest),
        ) == match first_failure(fs, forest) {
            Some(failure) => Some(Err::<Seq<PathView>, E>(failure)),
            None => run(
                scan::<E>(WalkView { name, agenda: rest, found: found + matching(forest, name) }),
                fs,
                reads,
            ),
        },
    decreases forest,
{
    let agenda = listing(forest) + rest;
    let before = WalkView { name, agenda, found };
    let total = reads + directories(forest);
    if forest.len() == 0 {
        assert(agenda =~= rest);
        assert(found + matching(forest, name) =~= found);
    } else {
        let first = forest[0];
        let others = forest.drop_first();
        let waiting = listing(others) + rest;
        assert(agenda[0] == entry_of(first));
        assert(agenda.drop_first() =~= waiting);
        lemma_others_shown(fs, forest);
        lemma_files_split(forest, name);
        match first {
            Tree::File { path } => {
                let gained = if ending(name)(path) {
                    found.push(path)
                } else {
                    found
                };
                assert(scan::<E>(before) == scan::<E>(
                    WalkView { name, agenda: waiting, found: gained },
                ));
                assert(total == reads + directories(others)) by {
                    reveal_with_fuel(directories, 2);
                }
                assert(first_failure(fs, forest) == first_failure(fs, others)) by {
                    reveal_with_fuel(first_failure, 2);
                }
                lemma_visit(fs, name, others, rest, gained, reads);
                assert(gained + matching(others, name) =~= found + matching(forest, name));
            },
            Tree::Directory { path, entries: below } => {
                let inside = reads + directories(others);
                let asked = WalkView { name, agenda: waiting, found };
                assert(scan::<E>(before) == StepView::<E>::Read { dir: path, walk: asked });
                assert(total == inside + directories(below) + 1) by {
                    reveal_with_fuel(directories, 2);
                }
                assert(run(scan::<E>(before), fs, total) == run(
                    supply(asked, fs(path)),
                    fs,
                    inside + directories(below),
                ));
                match fs(path) {
                    Err(failure) => {
                        assert(first_failure(fs, forest) == Some(failure)) by {
                            reveal_with_fuel(first_failure, 2);
                        }
                        assert(supply(asked, fs(path)) == StepView::Done(
                            Err::<Seq<PathView>, E>(failure),
                        ));
                    },
                    Ok(listed) => {
                        assert(listed == listing(below) && shows_readable(fs, below));
                        assert(supply(asked, fs(path)) == scan::<E>(
                            WalkView { name, agenda: listing(below) + waiting, found },
                        ));
                        assert(first_failure(fs, forest) == match first_failure(fs, below) {
                            Some(failure) => Some(failure),
                            None => first_failure(fs, others),
                        }) by {
                            reveal_with_fuel(first_failure, 2);
                        }
                        lemma_visit(fs, name, below, waiting, found, inside);
                        if first_failure(fs, below) is None {
                            let inner = found + matching(below, name);
                            lemma_visit(fs, name, others, rest, inner, reads);
                            assert(inner + matching(others, name) =~= found + matching(
                                forest,
                                name,
                            ));
                        }
                    },
                }
            },
        }
    }
}

/// A search ends with the first failure that it meets: that of the root, or
/// that of the first directory below it, in the order of the traversal, that
/// cannot be read. One failing subtree fails the whole search, and what was
/// found before it is not returned. Where every directory that is reached
/// can be read, the search ends with the matches.
pub proof fn lemma_search_ends_with_outcome<E>(
    fs: FileSystem<E>,
    root: PathView,
    name: PathView,
    tree: Seq<Tree>,
    reads: nat,
)
    requires
        fs(root) matches Ok(listed) ==> listed == listing(tree) && shows_readable(fs, tree),
        reads > directories(tree),
    ensures
        run(start::<E>(root, name), fs, reads) == Some(outcome(fs, root, name, tree)),
{
    let none = Seq::<PathView>::empty();
    let nothing = Seq::<EntryView>::empty();
    let spare = (reads - 1 - directories(tree)) as nat;
    let walk = WalkView { name, agenda: nothing, found: none };
    assert(run(start::<E>(root, name), fs, reads) == run(
        supply(walk, fs(root)),
        fs,
        spare + directories(tree),
    ));
    match fs(root) {
        Err(failure) => {},
        Ok(listed) => {
            assert(listing(tree) + nothing =~= listing(tree));
            assert(none + matching(tree, name) =~= matching(tree, name));
            lemma_visit(fs, name, tree, nothing, none, spare);
        },
    }
}

/// A search of a directory tree returns the files of the tree whose path
/// ends with the name, in the order of the traversal: for every tree, every
/// name, every file system that shows the tree below the root, and every
/// allowance of reads above the number of directories in the tree.
pub proof fn lemma_search_returns_matches<E>(
    fs: FileSystem<E>,
    root: PathView,
    name: PathView,
    tree: Seq<Tree>,
    reads: nat,
)
    requires
        shows_below(fs, root, tree),
        reads > directories(tree),
    ensures
        run(start::<E>(root, name), fs, reads) == Some(
            Ok::<Seq<PathView>, E>(matching(tree, name)),
        ),
{
    lemma_shown_is_read(fs, tree);
    lemma_search_ends_with_outcome(fs, root, name, tree, reads);
}

/// A search of an empty directory returns nothing, whatever the name.
pub proof fn lemma_empty_directory<E>(fs: FileSystem<E>, root: PathView, name: PathView, reads: nat)
    requires
        fs(root) == Ok::<Seq<EntryView>, E>(Seq::empty()),
        reads > 0,
    ensures
        run(start::<E>(root, name), fs, reads) == Some(Ok::<Seq<PathView>, E>(Seq::empty())),
{
    let tree = Seq::<Tree>::empty();
    assert(listing(tree) =~= Seq::empty());
    lemma_search_returns_matches(fs, root, name, tree, reads);
    lemma_none_matching(tree, name);
}

/// A search of a tree in which no file ends with the name returns nothing.
pub proof fn lemma_nothing_to_find<E>(
    fs: FileSystem<E>,
    root: PathView,
    name: PathView,
    tree: Seq<Tree>,
    reads: nat,
)
    requires
        shows_below(fs, root, tree),
        reads > directories(tree),
        forall|path: PathView| occurs(tree, path) ==> !ends_with(path, name),
    ensures
        run(start::<E>(root, name), fs, reads) == Some(Ok::<Seq<PathView>, E>(Seq::empty())),
{
    lemma_search_returns_matches(fs, root, name, tree, reads);
    lemma_none_matching(tree, name);
}

/// A search of a tree in which no file has the name's final component as
/// its own returns nothing. Near misses do not count, nor do directories of
/// that name.
pub proof fn lemma_no_such_final_component<E>(
    fs: FileSystem<E>,
    root: PathView,
    name: PathView,
    tree: Seq<Tree>,
    reads: nat,
)
    requires
        shows_below(fs, root, tree),
        reads > directories(tree),
        forall|path: PathView|
            occurs(tree, path) ==> !(path.len() > 0 && name.len() > 0 && path.last()
                == name.last()),
    ensures
        run(start::<E>(root, name), fs, reads) == Some(Ok::<Seq<PathView>, E>(Seq::empty())),
{
    assert forall|path: PathView| occurs(tree, path) implies !ends_with(path, name) by {
        if ends_with(path, name) {
            lemma_match_shares_final_component(path, name);
        }
    }
    lemma_nothing_to_find(fs, root, name, tree, reads);
}

/// A search for a name of no components returns nothing, whatever the tree
/// holds: no file has such a name.
pub proof fn lemma_no_name_finds_nothing<E>(
    fs: FileSystem<E>,
    root: PathView,
    tree: Seq<Tree>,
    reads: nat,
)
    requires
        shows_below(fs, root, tree),
        reads > directories(tree),
    ensures
        run(start::<E>(root, Seq::empty()), fs, reads) == Some(
            Ok::<Seq<PathView>, E>(Seq::empty()),
        ),
{
    lemma_nothing_to_find(fs, root, Seq::empty(), tree, reads);
}

/// Searching again gives the same result: two searches for one name over
/// file systems that show the same tree below the same root return the same
/// paths in the same order, however many reads each is allowed beyond those
/// it needs.
pub proof fn lemma_search_repeats<E>(
    first: FileSystem<E>,
    second: FileSystem<E>,
    root: PathView,
    name: PathView,
    tree: Seq<Tree>,
    first_reads: nat,
    second_reads: nat,
)
    requires
        shows_below(first, root, tree),
        shows_below(second, root, tree),
        first_reads > directories(tree),
        second_reads > directories(tree),
    ensures
        run(start::<E>(root, name), first, first_reads) == run(
            start::<E>(root, name),
            second,
            second_reads,
        ),
{
    lemma_search_returns_matches(first, root, name, tree, first_reads);
    lemma_search_returns_matches(second, root, name, tree, second_reads);
}

/// A search for a name of one component returns exactly the entries of the
/// tree, at any depth, that are no directories and whose final component is
/// that name. A directory is never returned, whatever its name.
pub proof fn lemma_search_is_exact<E>(
    fs: FileSystem<E>,
    root: PathView,
    name: Seq<u8>,
    tree: Seq<Tree>,
    reads: nat,
)
    requires
        shows_below(fs, root, tree),
        reads > directories(tree),
    ensures
        run(start::<E>(root, seq![name]), fs, reads) == Some(
            Ok::<Seq<PathView>, E>(matching(tree, seq![name])),
        ),
        forall|path: PathView|
            #[trigger] matching(tree, seq![name]).contains(path) <==> occurs(tree, path)
                && path.len() > 0 && path.last() == name,
{
    lemma_search_returns_matches(fs, root, seq![name], tree, reads);
    lemma_matching_exact(tree, seq![name]);
    assert forall|path: PathView|
        ends_with(path, seq![name]) <==> path.len() > 0 && path.last() == name by {
        lemma_final_component(path, name);
    }
}

/// A directory that cannot be read ends the search with that failure, and
/// nothing that was found before is returned.
pub proof fn lemma_failure_ends_search<E>(
    fs: FileSystem<E>,
    dir: PathView,
    walk: WalkView,
    failure: E,
    reads: nat,
)
    requires
        fs(dir) == Err::<Seq<EntryView>, E>(failure),
        reads > 0,
    ensures
        run(StepView::Read { dir, walk }, fs, reads) == Some(Err::<Seq<PathView>, E>(failure)),
{
    reveal_with_fuel(run, 2);
}

} // verus!
