//! Paths as sequences of components, and the matching of a name against the
//! end of a path.
//!
//! A component is held as the bytes of its name, whatever they are: the
//! library never looks inside one, it only compares them whole. So a name
//! that is no valid text is searched like any other.

use vstd::prelude::*;

verus! {

/// A path, held as its components in order, the last one being the name of
/// the entry itself.
#[derive(Clone, Debug, PartialEq, Eq)]
pub struct Path {
    pub components: Vec<Vec<u8>>,
}

/// A path as plain values: its components, each a sequence of bytes.
pub type PathView = Seq<Seq<u8>>;

impl View for Path {
    type V = PathView;

    open spec fn view(&self) -> PathView {
        Seq::new(self.components@.len(), |i: int| self.components@[i]@)
    }
}

/// Whether `path` ends with `name`: the name has at least one component,
/// and its components are the last components of the path, each compared
/// whole. A name of no components names nothing, so no path ends with it.
pub open spec fn ends_with(path: PathView, name: PathView) -> bool {
    0 < name.len() <= path.len() && path.subrange(path.len() - name.len(), path.len() as int)
        == name
}

/// No path ends with a name of no components.
pub proof fn lemma_no_name_no_match(path: PathView)
    ensures
        !ends_with(path, Seq::empty()),
{
}

/// A path that ends with a name has that name's final component as its own.
pub proof fn lemma_match_shares_final_component(path: PathView, name: PathView)
    requires
        ends_with(path, name),
    ensures
        path.len() > 0,
        name.len() > 0,
        path.last() == name.last(),
{
    let tail = path.subrange(path.len() - name.len(), path.len() as int);
    assert(tail[name.len() - 1] == path.last());
}

/// Against a name of one component, a path matches exactly when its final
/// component is that name.
pub proof fn lemma_final_component(path: PathView, name: Seq<u8>)
    ensures
        ends_with(path, seq![name]) <==> (path.len() > 0 && path.last() == name),
{
    if path.len() > 0 {
        let tail = path.subrange(path.len() - 1, path.len() as int);
        assert(tail[0] == path.last());
        if path.last() == name {
            assert(tail =~= seq![name]);
        }
    }
}

/// Whether two components are the same, byte for byte.
fn same_component(left: &Vec<u8>, right: &Vec<u8>) -> (same: bool)
    ensures
        same == (left@ == right@),
{
    if left.len() != right.len() {
        return false;
    }
    let mut i: usize = 0;
    while i < left.len()
        invariant
            i <= left.len(),
            left.len() == right.len(),
            forall|j: int| 0 <= j < i ==> left@[j] == right@[j],
        decreases left.len() - i,
    {
        if left[i] != right[i] {
            return false;
        }
        i = i + 1;
    }
    assert(left@ =~= right@);
    true
}

impl Path {
    /// Whether this path ends with the components of `name`, of which there
    /// is at least one.
    pub fn ends_with(&self, name: &Path) -> (matched: bool)
        ensures
            matched == ends_with(self@, name@),
    {
        let have: usize = self.components.len();
        let want: usize = name.components.len();
        if want == 0 || want > have {
            return false;
        }
        let skip: usize = have - want;
        let ghost tail = self@.subrange(skip as int, have as int);
        let mut i: usize = 0;
        while i < want
            invariant
                i <= want,
                want == name.components.len(),
                have == self.components.len(),
                skip + want == have,
                tail == self@.subrange(skip as int, have as int),
                forall|j: int| 0 <= j < i ==> tail[j] == name@[j],
            decreases want - i,
        {
            if !same_component(&self.components[skip + i], &name.components[i]) {
                assert(tail[i as int] != name@[i as int]);
                return false;
            }
            i = i + 1;
        }
        assert(tail =~= name@);
        true
    }
}

} // verus!
