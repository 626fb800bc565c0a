use vstd::prelude::*;

verus! {

/// Smallest coordinate a window rectangle may start at. The display
/// protocol reports positions as 16-bit signed values, so no live geometry
/// lies further left or up than this.
pub const MIN_COORD: i32 = -0x8000;

/// One past the largest coordinate a window rectangle may reach. A live
/// geometry never extends past a 16-bit position plus a 16-bit size, and a
/// directional resize never pushes an edge beyond the screen, so `0x20000`
/// bounds every rectangle the manager ever stores.
pub const MAX_EXTENT: i32 = 0x20000;

/// A window rectangle: position of its top-left corner and its size in
/// pixels.
#[derive(Clone, Copy, Debug, PartialEq, Eq)]
pub struct Geometry {
    pub x: i32,
    pub y: i32,
    pub width: u32,
    pub height: u32,
}

/// Mathematical model of a rectangle, over unbounded integers.
pub ghost struct GeomModel {
    pub x: int,
    pub y: int,
    pub width: int,
    pub height: int,
}

impl View for Geometry {
    type V = GeomModel;

    open spec fn view(&self) -> GeomModel {
        GeomModel { x: self.x as int, y: self.y as int, width: self.width as int, height: self.height as int }
    }
}

impl Geometry {
    pub open spec fn wf(self) -> bool {
        self@.wf()
    }
}

impl GeomModel {
    /// Every rectangle the manager stores keeps its edges within the band
    /// `[MIN_COORD, MAX_EXTENT)`, which makes all geometry arithmetic fit
    /// comfortably in the machine types.
    pub open spec fn wf(self) -> bool {
        &&& MIN_COORD <= self.x
        &&& MIN_COORD <= self.y
        &&& 0 <= self.width <= MAX_EXTENT
        &&& 0 <= self.height <= MAX_EXTENT
        &&& self.x + self.width <= MAX_EXTENT
        &&& self.y + self.height <= MAX_EXTENT
    }

    /// Whether the pixel column `px`, row `py` lies inside the rectangle.
    pub open spec fn covers(self, px: int, py: int) -> bool {
        &&& self.x <= px < self.x + self.width
        &&& self.y <= py < self.y + self.height
    }

    /// The rectangle as the set of pixel positions it covers.
    pub open spec fn points(self) -> Set<(int, int)> {
        Set::new(|p: (int, int)| self.covers(p.0, p.1))
    }
}

/// A split carves the new window out of the wider direction of the parent:
/// side by side when the parent is wider than tall, stacked otherwise
/// (ties split top over bottom).
pub open spec fn splits_vertically(parent: GeomModel) -> bool {
    parent.width > parent.height
}

/// What remains of the parent's rectangle after a split: the left half of
/// a vertical split, the top half of a horizontal one. The chosen
/// dimension is halved by integer division.
pub open spec fn split_kept(parent: GeomModel) -> GeomModel {
    if splits_vertically(parent) {
        GeomModel { width: parent.width / 2, ..parent }
    } else {
        GeomModel { height: parent.height / 2, ..parent }
    }
}

/// The rectangle handed to the new window: it starts where the kept half
/// ends and takes the rest of the split dimension, so the two halves
/// account for every pixel of the parent even when the dimension is odd.
pub open spec fn split_new(parent: GeomModel) -> GeomModel {
    if splits_vertically(parent) {
        GeomModel {
            x: parent.x + parent.width / 2,
            width: parent.width - parent.width / 2,
            ..parent
        }
    } else {
        GeomModel {
            y: parent.y + parent.height / 2,
            height: parent.height - parent.height / 2,
            ..parent
        }
    }
}

/// The two rectangles a split produces never overlap.
pub proof fn lemma_split_disjoint(parent: GeomModel)
    requires
        parent.wf(),
    ensures
        split_kept(parent).points().disjoint(split_new(parent).points()),
{
    assert forall|p: (int, int)|
        split_kept(parent).points().contains(p) implies !split_new(parent).points().contains(p) by {
        assert(split_kept(parent).covers(p.0, p.1));
    }
}

/// Split partition: the two rectangles a split produces are disjoint
/// and together cover exactly the parent's pre-split rectangle, with no
/// gap or overlap.
pub proof fn lemma_split_partition(parent: GeomModel)
    requires
        parent.wf(),
    ensures
        split_kept(parent).points().disjoint(split_new(parent).points()),
        split_kept(parent).points().union(split_new(parent).points()) =~= parent.points(),
{
    lemma_split_disjoint(parent);
    assert forall|p: (int, int)|
        parent.points().contains(p) implies split_kept(parent).points().contains(p)
            || split_new(parent).points().contains(p) by {
        assert(parent.covers(p.0, p.1));
    }
}

/// Both halves of a split stay well formed, and each lies inside the
/// parent's rectangle.
pub proof fn lemma_split_wf(parent: GeomModel)
    requires
        parent.wf(),
    ensures
        split_kept(parent).wf(),
        split_new(parent).wf(),
{
}

} // verus!
