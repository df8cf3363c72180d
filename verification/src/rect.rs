//! Rectangles to pack, chosen placements, and the plane geometry
//! (containment, disjointness) that the packing proofs rest on.

use vstd::prelude::*;

verus! {

/// A rectangle to be packed: the dimensions of one source image.
/// `id` correlates the rectangle back to its source; `rotatable` allows the
/// packer to swap width and height when that is the only way to place it.
#[derive(Clone, Copy, PartialEq, Eq, Structural, Debug)]
pub struct Rect {
    pub id: usize,
    pub w: usize,
    pub h: usize,
    pub rotatable: bool,
}

/// A chosen position for one rectangle within the bin. `w`/`h` are the
/// placed dimensions: equal to the input's, or swapped if it was rotated.
#[derive(Clone, Copy, PartialEq, Eq, Structural, Debug)]
pub struct Placement {
    pub id: usize,
    pub x: usize,
    pub y: usize,
    pub w: usize,
    pub h: usize,
}

/// An axis-aligned region of the plane, over mathematical integers.
pub ghost struct Region {
    pub x: int,
    pub y: int,
    pub w: int,
    pub h: int,
}

impl Placement {
    pub open spec fn region(self) -> Region {
        Region { x: self.x as int, y: self.y as int, w: self.w as int, h: self.h as int }
    }
}

/// The two regions share no point.
pub open spec fn disjoint(a: Region, b: Region) -> bool {
    ||| a.x + a.w <= b.x
    ||| b.x + b.w <= a.x
    ||| a.y + a.h <= b.y
    ||| b.y + b.h <= a.y
}

/// `inner` lies fully inside `outer`.
pub open spec fn contains(outer: Region, inner: Region) -> bool {
    &&& outer.x <= inner.x
    &&& inner.x + inner.w <= outer.x + outer.w
    &&& outer.y <= inner.y
    &&& inner.y + inner.h <= outer.y + outer.h
}

/// The region lies fully within the `side × side` bin anchored at the origin.
pub open spec fn in_bin(r: Region, side: int) -> bool {
    &&& 0 <= r.x
    &&& 0 <= r.y
    &&& r.x + r.w <= side
    &&& r.y + r.h <= side
}

/// The placed dimensions agree with the input rectangle: identical, or
/// swapped when the rectangle allowed rotation.
pub open spec fn dims_match(r: Rect, p: Placement) -> bool {
    &&& p.id == r.id
    &&& ((p.w == r.w && p.h == r.h) || (r.rotatable && p.w == r.h && p.h == r.w))
}

/// A sub-region of a region that avoids `other` avoids it too.
pub proof fn lemma_contained_disjoint(outer: Region, inner: Region, other: Region)
    requires
        contains(outer, inner),
        disjoint(outer, other),
    ensures
        disjoint(inner, other),
{
}

} // verus!
