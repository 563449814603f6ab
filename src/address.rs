use vstd::prelude::*;

verus! {

/// The stable two-level address of one catalogued image: the position of
/// its folder in the catalog and its position inside that folder.
#[derive(Clone, Copy, Debug, PartialEq, Eq, Hash, Structural)]
pub struct Index {
    pub folder: usize,
    pub image: usize,
}

/// Strict (folder, image) order on addresses.
pub open spec fn index_lt(a: Index, b: Index) -> bool {
    a.folder < b.folder || (a.folder == b.folder && a.image < b.image)
}

impl Index {
    /// Whether `self` sorts strictly before `other` by folder, then image.
    pub fn precedes(&self, other: &Index) -> (r: bool)
        ensures
            r == index_lt(*self, *other),
    {
        self.folder < other.folder || (self.folder == other.folder && self.image < other.image)
    }
}

} // verus!
