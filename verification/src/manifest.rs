//! The manifest: which image files and which directories belong to the
//! atlas. Paths are byte strings; both lists stay duplicate-free, and no
//! path is recorded as a file and as a directory at once.

use vstd::prelude::*;
use crate::paths::{no_dups, occurrences, lemma_absent_zero, lemma_present_once, holds_path,
    lemma_deep_len, lemma_deep_index};

verus! {

broadcast use lemma_deep_len, lemma_deep_index;

/// The set of tracked image files and directories.
pub struct Atlas {
    pub images: Vec<Vec<u8>>,
    pub dirs: Vec<Vec<u8>>,
}

/// Adding a path to one list: a no-op when either list already holds it,
/// an append otherwise.
pub open spec fn spec_add_path(list: Seq<Seq<u8>>, other: Seq<Seq<u8>>, p: Seq<u8>) -> Seq<
    Seq<u8>,
> {
    if list.contains(p) || other.contains(p) {
        list
    } else {
        list.push(p)
    }
}

impl Atlas {
    /// Both lists duplicate-free, and no path of one kind is also of the
    /// other kind.
    pub open spec fn wf(self) -> bool {
        &&& no_dups(self.images.deep_view())
        &&& no_dups(self.dirs.deep_view())
        &&& forall|i: int, j: int|
            0 <= i < self.images.deep_view().len() && 0 <= j < self.dirs.deep_view().len()
                ==> self.images.deep_view()[i] != self.dirs.deep_view()[j]
    }

    /// An empty manifest.
    pub fn new() -> (a: Atlas)
        ensures
            a.images.deep_view().len() == 0,
            a.dirs.deep_view().len() == 0,
            a.wf(),
    {
        Atlas { images: Vec::new(), dirs: Vec::new() }
    }

    /// Track an image file. Deduplicated: a path already tracked (as a
    /// file or as a directory) leaves the manifest unchanged.
    pub fn add_image(&mut self, path: Vec<u8>)
        requires
            old(self).wf(),
        ensures
            final(self).wf(),
            final(self).dirs.deep_view() == old(self).dirs.deep_view(),
            final(self).images.deep_view() == spec_add_path(
                old(self).images.deep_view(),
                old(self).dirs.deep_view(),
                path@,
            ),
    {
        let in_images = holds_path(&self.images, &path);
        let in_dirs = holds_path(&self.dirs, &path);
        if !in_images && !in_dirs {
            let ghost old_deep = self.images.deep_view();
            self.images.push(path);
            proof {
                assert(self.images.deep_view() =~= old_deep.push(path@));
                assert forall|i: int, j: int| 0 <= i < j < self.images.deep_view().len()
                    implies self.images.deep_view()[i] != self.images.deep_view()[j] by {
                    if j == old_deep.len() {
                        assert(self.images.deep_view()[i] == old_deep[i]);
                        assert(!old_deep.contains(path@));
                    }
                }
            }
        }
    }

    /// Track a directory. Deduplicated exactly as `add_image` is.
    pub fn add_dir(&mut self, path: Vec<u8>)
        requires
            old(self).wf(),
        ensures
            final(self).wf(),
            final(self).images.deep_view() == old(self).images.deep_view(),
            final(self).dirs.deep_view() == spec_add_path(
                old(self).dirs.deep_view(),
                old(self).images.deep_view(),
                path@,
            ),
    {
        let in_images = holds_path(&self.images, &path);
        let in_dirs = holds_path(&self.dirs, &path);
        if !in_images && !in_dirs {
            let ghost old_deep = self.dirs.deep_view();
            self.dirs.push(path);
            proof {
                assert(self.dirs.deep_view() =~= old_deep.push(path@));
                assert forall|i: int, j: int| 0 <= i < j < self.dirs.deep_view().len()
                    implies self.dirs.deep_view()[i] != self.dirs.deep_view()[j] by {
                    if j == old_deep.len() {
                        assert(self.dirs.deep_view()[i] == old_deep[i]);
                        assert(!old_deep.contains(path@));
                    }
                }
            }
        }
    }
}

/// Adding a path twice is the same as adding it once.
pub proof fn lemma_add_idempotent(list: Seq<Seq<u8>>, other: Seq<Seq<u8>>, p: Seq<u8>)
    ensures
        spec_add_path(spec_add_path(list, other, p), other, p) == spec_add_path(list, other, p),
{
    if !(list.contains(p) || other.contains(p)) {
        assert(list.push(p)[list.len() as int] == p);
        assert(list.push(p).contains(p));
    }
}

/// After adding a file path not tracked as a directory to a
/// duplicate-free list, the list holds it exactly once — however often
/// the add is repeated.
pub proof fn lemma_add_once(list: Seq<Seq<u8>>, other: Seq<Seq<u8>>, p: Seq<u8>)
    requires
        no_dups(list),
        !other.contains(p),
    ensures
        occurrences(spec_add_path(list, other, p), p) == 1,
{
    if list.contains(p) {
        lemma_present_once(list, p);
    } else {
        lemma_absent_zero(list, p);
        let pushed = list.push(p);
        assert(pushed.drop_last() =~= list);
        assert(pushed.last() == p);
        assert(occurrences(pushed, p) == occurrences(list, p) + 1);
    }
}

} // verus!
