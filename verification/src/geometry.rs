use vstd::prelude::*;

verus! {

/// A grid-cell coordinate: a pair of non-negative integers, compared by value.
#[derive(Copy, Clone, Debug, PartialEq, Eq, Structural)]
pub struct Point {
    pub x: u32,
    pub y: u32,
}

impl Point {
    pub fn new(x: u32, y: u32) -> (r: Point)
        ensures
            r.x == x,
            r.y == y,
    {
        Point { x, y }
    }

    pub fn zero() -> (r: Point)
        ensures
            r.x == 0,
            r.y == 0,
    {
        Point { x: 0, y: 0 }
    }
}

/// An axis-aligned rectangle of grid cells, closed on all four sides.
/// Only the two canonical corners are stored; the other two corners and the
/// dimensions are derived on demand.
#[derive(Copy, Clone, Debug, PartialEq, Eq, Structural)]
pub struct Rectangle {
    pub bottom_left: Point,
    pub top_right: Point,
}

impl Rectangle {
    /// The corners are ordered: the rectangle holds at least one cell.
    pub open spec fn wf(self) -> bool {
        self.bottom_left.x <= self.top_right.x && self.bottom_left.y <= self.top_right.y
    }

    /// Number of cell columns, inclusive of both edges.
    pub open spec fn spec_width(self) -> int {
        self.top_right.x - self.bottom_left.x + 1
    }

    /// Number of cell rows, inclusive of both edges.
    pub open spec fn spec_height(self) -> int {
        self.top_right.y - self.bottom_left.y + 1
    }

    pub fn from_corner(bottom_left: Point, top_right: Point) -> (r: Rectangle)
        requires
            bottom_left.x <= top_right.x,
            bottom_left.y <= top_right.y,
        ensures
            r.bottom_left == bottom_left,
            r.top_right == top_right,
            r.wf(),
    {
        Rectangle { bottom_left, top_right }
    }

    pub fn from_dimension(bottom_left: Point, width: u32, height: u32) -> (r: Rectangle)
        requires
            1 <= width,
            1 <= height,
            bottom_left.x + width - 1 <= u32::MAX,
            bottom_left.y + height - 1 <= u32::MAX,
        ensures
            r.bottom_left == bottom_left,
            r.wf(),
            r.spec_width() == width,
            r.spec_height() == height,
    {
        Rectangle {
            bottom_left,
            top_right: Point::new(bottom_left.x + (width - 1), bottom_left.y + (height - 1)),
        }
    }

    pub fn bottom_right(&self) -> (r: Point)
        ensures
            r.x == self.top_right.x,
            r.y == self.bottom_left.y,
    {
        Point { x: self.top_right.x, y: self.bottom_left.y }
    }

    pub fn top_left(&self) -> (r: Point)
        ensures
            r.x == self.bottom_left.x,
            r.y == self.top_right.y,
    {
        Point { x: self.bottom_left.x, y: self.top_right.y }
    }

    pub fn width(&self) -> (r: u32)
        requires
            self.wf(),
            self.spec_width() <= u32::MAX,
        ensures
            r == self.spec_width(),
    {
        self.top_right.x - self.bottom_left.x + 1
    }

    pub fn height(&self) -> (r: u32)
        requires
            self.wf(),
            self.spec_height() <= u32::MAX,
        ensures
            r == self.spec_height(),
    {
        self.top_right.y - self.bottom_left.y + 1
    }
}

/// The cell (x, y) lies inside rectangle r.
pub open spec fn contains_cell(r: Rectangle, x: int, y: int) -> bool {
    r.bottom_left.x <= x <= r.top_right.x && r.bottom_left.y <= y <= r.top_right.y
}

/// Every cell of `inner` lies inside `outer`.
pub open spec fn within(inner: Rectangle, outer: Rectangle) -> bool {
    outer.bottom_left.x <= inner.bottom_left.x && inner.top_right.x <= outer.top_right.x
        && outer.bottom_left.y <= inner.bottom_left.y && inner.top_right.y <= outer.top_right.y
}

/// The rectangles are separated on some axis; two well-formed rectangles are
/// separated exactly when they share no cell (lemma_disjoint_no_shared_cell).
pub open spec fn disjoint_rects(a: Rectangle, b: Rectangle) -> bool {
    a.top_right.x < b.bottom_left.x || b.top_right.x < a.bottom_left.x
        || a.top_right.y < b.bottom_left.y || b.top_right.y < a.bottom_left.y
}

pub proof fn lemma_disjoint_no_shared_cell(a: Rectangle, b: Rectangle)
    requires
        a.wf(),
        b.wf(),
    ensures
        disjoint_rects(a, b) <==> forall|x: int, y: int|
            !(#[trigger] contains_cell(a, x, y) && contains_cell(b, x, y)),
{
    if !disjoint_rects(a, b) {
        let x = if a.bottom_left.x >= b.bottom_left.x { a.bottom_left.x as int } else { b.bottom_left.x as int };
        let y = if a.bottom_left.y >= b.bottom_left.y { a.bottom_left.y as int } else { b.bottom_left.y as int };
        assert(contains_cell(a, x, y) && contains_cell(b, x, y));
    }
}

pub open spec fn all_wf(rs: Seq<Rectangle>) -> bool {
    forall|i: int| 0 <= i < rs.len() ==> (#[trigger] rs[i]).wf()
}

pub open spec fn all_within(rs: Seq<Rectangle>, outer: Rectangle) -> bool {
    forall|i: int| 0 <= i < rs.len() ==> within(#[trigger] rs[i], outer)
}

/// No two rectangles of the sequence share a cell.
pub open spec fn pairwise_disjoint(rs: Seq<Rectangle>) -> bool {
    forall|i: int, j: int| 0 <= i < j < rs.len() ==> disjoint_rects(#[trigger] rs[i], #[trigger] rs[j])
}

/// Some rectangle of the sequence holds the cell (x, y).
pub open spec fn covered(rs: Seq<Rectangle>, x: int, y: int) -> bool {
    exists|i: int| 0 <= i < rs.len() && contains_cell(#[trigger] rs[i], x, y)
}

/// The rectangles tile `root` exactly: they are well formed, lie inside
/// `root`, share no cell, and together reach every cell of `root`.
pub open spec fn partition_of(parts: Seq<Rectangle>, root: Rectangle) -> bool {
    all_wf(parts) && all_within(parts, root) && pairwise_disjoint(parts)
        && forall|x: int, y: int| #[trigger] contains_cell(root, x, y) ==> covered(parts, x, y)
}

} // verus!
