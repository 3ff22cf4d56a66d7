//! The search for a name below a directory, as a walk that asks for one
//! directory at a time.
//!
//! The walk never touches the file system. `find_file` and `Walk::supply`
//! return a `Step`: either the finished result, or the directory to read next
//! and the state that waits for its entries. Whoever owns the file system
//! reads the directory and hands its entries, or the failure, back.

use vstd::prelude::*;
use crate::path::{ends_with, Path, PathView};
use crate::tree::{Entry, EntryView, Kind};

verus! {

/// A search under way: the name looked for, the entries seen but not yet
/// visited, and the matches so far.
pub struct Walk {
    name: Path,
    /// The entries still to visit; the last one is visited first.
    pending: Vec<Entry>,
    found: Vec<Path>,
}

/// A `Walk` as plain values. The agenda lists the entries still to visit,
/// the next one first.
pub struct WalkView {
    pub name: PathView,
    pub agenda: Seq<EntryView>,
    pub found: Seq<PathView>,
}

/// What the walk asks of its caller.
pub enum Step<E> {
    /// Read the directory `dir` and give its entries to `walk`.
    Read { dir: Path, walk: Walk },
    /// The search is over: the matches in the order of the traversal, or the
    /// failure that ended it.
    Done(Result<Vec<Path>, E>),
}

/// A `Step` as plain values.
pub enum StepView<E> {
    Read { dir: PathView, walk: WalkView },
    Done(Result<Seq<PathView>, E>),
}

/// The paths of a vector, each as plain values.
pub open spec fn paths(found: Seq<Path>) -> Seq<PathView> {
    Seq::new(found.len(), |i: int| found[i]@)
}

/// The entries of a vector, each as plain values.
pub open spec fn entries(listed: Seq<Entry>) -> Seq<EntryView> {
    Seq::new(listed.len(), |i: int| listed[i]@)
}

/// A stack of entries, read from its top.
pub open spec fn from_top(pending: Seq<Entry>) -> Seq<EntryView> {
    Seq::new(pending.len(), |i: int| pending[pending.len() - 1 - i]@)
}

impl View for Walk {
    type V = WalkView;

    closed spec fn view(&self) -> WalkView {
        WalkView {
            name: self.name@,
            agenda: from_top(self.pending@),
            found: paths(self.found@),
        }
    }
}

impl<E> View for Step<E> {
    type V = StepView<E>;

    open spec fn view(&self) -> StepView<E> {
        match *self {
            Step::Read { dir, walk } => StepView::Read { dir: dir@, walk: walk@ },
            Step::Done(Ok(found)) => StepView::Done(Ok(paths(found@))),
            Step::Done(Err(failure)) => StepView::Done(Err(failure)),
        }
    }
}

/// What was read of a directory, or the failure to read it, as plain values.
pub open spec fn listing_view<E>(listing: Result<Vec<Entry>, E>) -> Result<Seq<EntryView>, E> {
    match listing {
        Ok(listed) => Ok(entries(listed@)),
        Err(failure) => Err(failure),
    }
}

/// The first step of a search for `name` below `path`: read `path`.
pub open spec fn start<E>(path: PathView, name: PathView) -> StepView<E> {
    StepView::Read { dir: path, walk: WalkView { name, agenda: Seq::empty(), found: Seq::empty() } }
}

/// Visits the agenda from its front. An entry that is no directory is added
/// to the matches if its path ends with the name, and passed over if not. The
/// first directory stops the visit: it has to be read. With nothing left to
/// visit the search is done.
pub open spec fn scan<E>(walk: WalkView) -> StepView<E>
    decreases walk.agenda.len(),
{
    if walk.agenda.len() == 0 {
        StepView::Done(Ok(walk.found))
    } else {
        let entry = walk.agenda[0];
        let rest = walk.agenda.drop_first();
        match entry.kind {
            Kind::Directory => StepView::Read {
                dir: entry.path,
                walk: WalkView { agenda: rest, ..walk },
            },
            Kind::File => scan(
                WalkView {
                    agenda: rest,
                    found: if ends_with(entry.path, walk.name) {
                        walk.found.push(entry.path)
                    } else {
                        walk.found
                    },
                    ..walk
                },
            ),
        }
    }
}

/// The step that follows the reading of the directory asked for. A failure
/// ends the search with that failure and without the matches so far. The
/// entries read are visited before anything that was waiting, in the order in
/// which they were reported.
pub open spec fn supply<E>(walk: WalkView, listing: Result<Seq<EntryView>, E>) -> StepView<E> {
    match listing {
        Err(failure) => StepView::Done(Err(failure)),
        Ok(listed) => scan(WalkView { agenda: listed + walk.agenda, ..walk }),
    }
}

/// Starts the search for the files below the directory `path` whose final
/// component is `name`. Where `name` has several components, the last
/// components of a file's path have to be these; where it has none, no file
/// matches. Nothing is known before the directory is read, so the step
/// always asks for that.
pub fn find_file<E>(path: Path, name: Path) -> (step: Step<E>)
    ensures
        step@ == start::<E>(path@, name@),
{
    let walk = Walk { name, pending: Vec::new(), found: Vec::new() };
    proof {
        assert(walk@.agenda =~= Seq::empty());
        assert(walk@.found =~= Seq::empty());
    }
    Step::Read { dir: path, walk }
}

impl Walk {
    /// Takes the entries of the directory that the last step asked for, in
    /// the order in which the file system reported them, or the failure to
    /// read it.
    pub fn supply<E>(self, listing: Result<Vec<Entry>, E>) -> (step: Step<E>)
        ensures
            step@ == supply(self@, listing_view(listing)),
    {
        match listing {
            Err(failure) => Step::Done(Err(failure)),
            Ok(listed) => {
                let ghost waiting = self@.agenda;
                let ghost all = entries(listed@);
                let mut walk = self;
                let mut listed = listed;
                while listed.len() > 0
                    invariant
                        walk.name == self.name,
                        walk.found == self.found,
                        listed@.len() <= all.len(),
                        entries(listed@) == all.subrange(0, listed@.len() as int),
                        from_top(walk.pending@) == all.subrange(
                            listed@.len() as int,
                            all.len() as int,
                        ) + waiting,
                    decreases listed.len(),
                {
                    let ghost before = walk.pending@;
                    let ghost left = listed@;
                    let entry = listed.pop().unwrap();
                    walk.pending.push(entry);
                    proof {
                        assert(entry@ == entries(left)[left.len() - 1]);
                        assert(entries(listed@) =~= all.subrange(0, listed@.len() as int));
                        assert(from_top(walk.pending@) =~= seq![entry@] + from_top(before));
                        assert(from_top(walk.pending@) =~= all.subrange(
                            listed@.len() as int,
                            all.len() as int,
                        ) + waiting);
                    }
                }
                proof {
                    assert(walk@.agenda =~= all + waiting);
                }
                walk.scan()
            },
        }
    }

    fn scan<E>(self) -> (step: Step<E>)
        ensures
            step@ == scan::<E>(self@),
    {
        let mut walk = self;
        loop
            invariant
                scan::<E>(walk@) == scan::<E>(self@),
            decreases walk.pending.len(),
        {
            let ghost before = walk@;
            match walk.pending.pop() {
                None => {
                    return Step::Done(Ok(walk.found));
                },
                Some(entry) => {
                    proof {
                        assert(before.agenda[0] == entry@);
                        assert(from_top(walk.pending@) =~= before.agenda.drop_first());
                    }
                    match entry.kind {
                        Kind::Directory => {
                            return Step::Read { dir: entry.path, walk };
                        },
                        Kind::File => {
                            if entry.path.ends_with(&walk.name) {
                                let ghost sofar = walk.found@;
                                walk.found.push(entry.path);
                                proof {
                                    assert(paths(walk.found@) =~= paths(sofar).push(entry.path@));
                                }
                            }
                        },
                    }
                },
            }
        }
    }
}

/// The matches that a step holds: those of the walk that waits, or those
/// returned. A failure holds none.
pub open spec fn found_by<E>(step: StepView<E>) -> Seq<PathView> {
    match step {
        StepView::Read { walk, .. } => walk.found,
        StepView::Done(Ok(found)) => found,
        StepView::Done(Err(_)) => Seq::empty(),
    }
}

/// Visiting only ever adds to the matches: what was found before stands, in
/// its order, at the start of what is found after.
pub proof fn lemma_scan_appends<E>(walk: WalkView)
    ensures
        walk.found.is_prefix_of(found_by(scan::<E>(walk))),
    decreases walk.agenda.len(),
{
    if walk.agenda.len() > 0 {
        let entry = walk.agenda[0];
        if entry.kind == Kind::File {
            let found = if ends_with(entry.path, walk.name) {
                walk.found.push(entry.path)
            } else {
                walk.found
            };
            let rest = WalkView { agenda: walk.agenda.drop_first(), found, ..walk };
            lemma_scan_appends::<E>(rest);
            let after = found_by(scan::<E>(rest));
            assert(found =~= after.subrange(0, found.len() as int));
            assert(walk.found =~= after.subrange(0, walk.found.len() as int));
        }
    }
}

/// Reading a directory only ever adds to the matches, unless it fails.
pub proof fn lemma_supply_appends<E>(walk: WalkView, listed: Seq<EntryView>)
    ensures
        walk.found.is_prefix_of(found_by(supply::<E>(walk, Ok(listed)))),
{
    lemma_scan_appends::<E>(WalkView { agenda: listed + walk.agenda, ..walk });
}

} // verus!
