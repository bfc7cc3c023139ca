use vstd::prelude::*;
use crate::free_list::FreeList;

verus! {

/// An axis-aligned rectangle with inclusive edges; `y` grows upward.
#[derive(Clone, Copy, Debug, PartialEq, Eq, Structural)]
pub struct Rect {
    pub left: i32,
    pub top: i32,
    pub right: i32,
    pub bottom: i32,
}

#[derive(Clone, Copy, Debug, PartialEq, Eq, Structural)]
pub struct Point {
    pub x: i32,
    pub y: i32,
}

/// The rectangle is normalised: `left <= right` and `bottom <= top`.
pub open spec fn is_normal(r: Rect) -> bool {
    r.left <= r.right && r.bottom <= r.top
}

/// A normalised rectangle whose width and height fit in an `i32`, so that
/// its midpoint can be computed without overflow.
pub open spec fn is_region(r: Rect) -> bool {
    is_normal(r) && r.right - r.left <= i32::MAX && r.top - r.bottom <= i32::MAX
}

pub open spec fn mid_x(r: Rect) -> int {
    (r.right - r.left) / 2 + r.left
}

pub open spec fn mid_y(r: Rect) -> int {
    (r.top - r.bottom) / 2 + r.bottom
}

/// Both rectangles share at least one point (edges included).
pub open spec fn overlaps(a: Rect, b: Rect) -> bool {
    a.left <= b.right && a.right >= b.left && a.top >= b.bottom && a.bottom <= b.top
}

/// `inner` lies within `outer`.
pub open spec fn within(inner: Rect, outer: Rect) -> bool {
    outer.left <= inner.left && inner.right <= outer.right && outer.bottom <= inner.bottom
        && inner.top <= outer.top
}

pub open spec fn span(x1: i32, y1: i32, x2: i32, y2: i32) -> Rect {
    Rect {
        left: if x1 <= x2 { x1 } else { x2 },
        right: if x1 <= x2 { x2 } else { x1 },
        top: if y1 <= y2 { y2 } else { y1 },
        bottom: if y1 <= y2 { y1 } else { y2 },
    }
}

/// Quadrant `k` of a region, in the order top-left, top-right, bottom-left,
/// bottom-right; neighbouring quadrants share their midline.
pub open spec fn quad(r: Rect, k: int) -> Rect {
    let mx = mid_x(r) as i32;
    let my = mid_y(r) as i32;
    if k == 0 {
        span(mx, my, r.left, r.top)
    } else if k == 1 {
        span(mx, my, r.right, r.top)
    } else if k == 2 {
        span(mx, my, r.left, r.bottom)
    } else {
        span(mx, my, r.right, r.bottom)
    }
}

pub open spec fn point_rect(p: Point) -> Rect {
    Rect { left: p.x, right: p.x, top: p.y, bottom: p.y }
}

/// Each quadrant of a region is a region that lies within it.
pub proof fn lemma_quad_within(r: Rect, k: int)
    requires
        is_region(r),
        0 <= k < 4,
    ensures
        is_region(quad(r, k)),
        within(quad(r, k), r),
        r.left <= mid_x(r) <= r.right,
        r.bottom <= mid_y(r) <= r.top,
{
}

/// Overlap with a rectangle inside `outer` implies overlap with `outer`.
pub proof fn lemma_overlaps_within(inner: Rect, outer: Rect, other: Rect)
    requires
        within(inner, outer),
        overlaps(inner, other),
    ensures
        overlaps(outer, other),
{
}

/// The quadrants cover their region: whatever overlaps the region overlaps
/// one of them.
pub proof fn lemma_quad_cover(r: Rect, other: Rect)
    requires
        is_region(r),
        is_normal(other),
        overlaps(r, other),
    ensures
        overlaps(quad(r, 0), other) || overlaps(quad(r, 1), other) || overlaps(quad(r, 2), other) || overlaps(quad(r, 3), other),
{
    lemma_quad_within(r, 0);
    let mx = mid_x(r);
    let my = mid_y(r);
    if other.left <= mx {
        if other.top >= my {
            assert(overlaps(quad(r, 0), other));
        } else {
            assert(overlaps(quad(r, 2), other));
        }
    } else {
        if other.top >= my {
            assert(overlaps(quad(r, 1), other));
        } else {
            assert(overlaps(quad(r, 3), other));
        }
    }
}

impl Point {
    pub fn new(x: i32, y: i32) -> (r: Point)
        ensures
            r == (Point { x, y }),
    {
        Point { x, y }
    }

    /// The degenerate rectangle holding just this point.
    pub fn to_rect(p: Point) -> (r: Rect)
        ensures
            r == point_rect(p),
    {
        Rect { left: p.x, right: p.x, top: p.y, bottom: p.y }
    }
}

impl Rect {
    /// The smallest rectangle with both points as corners.
    pub fn from_points(p1: Point, p2: Point) -> (r: Rect)
        ensures
            r == span(p1.x, p1.y, p2.x, p2.y),
            is_normal(r),
    {
        Rect {
            left: if p1.x <= p2.x { p1.x } else { p2.x },
            right: if p1.x <= p2.x { p2.x } else { p1.x },
            top: if p1.y <= p2.y { p2.y } else { p1.y },
            bottom: if p1.y <= p2.y { p1.y } else { p2.y },
        }
    }

    /// The rectangle with top-left corner `(x, y)`, width `w` and height `h`.
    pub fn new(x: i32, y: i32, w: i32, h: i32) -> (r: Rect)
        requires
            w >= 0,
            h >= 0,
            x + w <= i32::MAX,
            y - h >= i32::MIN,
        ensures
            r == (Rect { left: x, right: (x + w) as i32, top: y, bottom: (y - h) as i32 }),
            is_normal(r),
    {
        Rect { left: x, right: x + w, top: y, bottom: y - h }
    }

    /// The four quadrants of a region, top-left, top-right, bottom-left,
    /// bottom-right.
    pub fn location_quads(&self) -> (r: [Rect; 4])
        requires
            is_region(*self),
        ensures
            forall|k: int| 0 <= k < 4 ==> r@[k] == #[trigger] quad(*self, k),
    {
        let node_middle_x = (self.right - self.left) / 2 + self.left;
        let node_middle_y = (self.top - self.bottom) / 2 + self.bottom;
        let middle_point = Point { x: node_middle_x, y: node_middle_y };
        [
            Rect::from_points(middle_point, Point { x: self.left, y: self.top }),
            Rect::from_points(middle_point, Point { x: self.right, y: self.top }),
            Rect::from_points(middle_point, Point { x: self.left, y: self.bottom }),
            Rect::from_points(middle_point, Point { x: self.right, y: self.bottom }),
        ]
    }

    /// Whether the two rectangles share a point, edges included.
    pub fn intersect(&self, other: Rect) -> (r: bool)
        ensures
            r == overlaps(*self, other),
    {
        self.left <= other.right && self.right >= other.left && self.top >= other.bottom
            && self.bottom <= other.top
    }

    /// For each quadrant of `node_rect`, whether it holds `point`.
    pub fn point_quad_locations(node_rect: Rect, point: &Point) -> (r: [bool; 4])
        requires
            is_region(node_rect),
        ensures
            forall|k: int| 0 <= k < 4 ==> r@[k] == #[trigger] overlaps(quad(node_rect, k), point_rect(*point)),
    {
        let node_middle_x = (node_rect.right - node_rect.left) / 2 + node_rect.left;
        let node_middle_y = (node_rect.top - node_rect.bottom) / 2 + node_rect.bottom;
        let tl = point.x <= node_middle_x && point.x >= node_rect.left && point.y >= node_middle_y
            && point.y <= node_rect.top;
        let tr = point.x >= node_middle_x && point.x <= node_rect.right && point.y >= node_middle_y
            && point.y <= node_rect.top;
        let bl = point.x <= node_middle_x && point.x >= node_rect.left && point.y <= node_middle_y
            && point.y >= node_rect.bottom;
        let br = point.x >= node_middle_x && point.x <= node_rect.right && point.y <= node_middle_y
            && point.y >= node_rect.bottom;
        [tl, tr, bl, br]
    }

    /// For each quadrant of `node_rect`, whether `element_rect` overlaps it.
    pub fn element_quad_locations(node_rect: Rect, element_rect: Rect) -> (r: [bool; 4])
        requires
            is_region(node_rect),
        ensures
            forall|k: int| 0 <= k < 4 ==> r@[k] == #[trigger] overlaps(quad(node_rect, k), element_rect),
    {
        let node_middle_x = (node_rect.right - node_rect.left) / 2 + node_rect.left;
        let node_middle_y = (node_rect.top - node_rect.bottom) / 2 + node_rect.bottom;
        let tl = element_rect.left <= node_middle_x && element_rect.right >= node_rect.left
            && element_rect.top >= node_middle_y && element_rect.bottom <= node_rect.top;
        let tr = element_rect.right >= node_middle_x && element_rect.left <= node_rect.right
            && element_rect.top >= node_middle_y && element_rect.bottom <= node_rect.top;
        let bl = element_rect.left <= node_middle_x && element_rect.right >= node_rect.left
            && element_rect.bottom <= node_middle_y && element_rect.top >= node_rect.bottom;
        let br = element_rect.right >= node_middle_x && element_rect.left <= node_rect.right
            && element_rect.bottom <= node_middle_y && element_rect.top >= node_rect.bottom;
        [tl, tr, bl, br]
    }
}

/// An indexed element: where its payload is stored, and its rectangle.
#[derive(Clone, Copy, Debug)]
pub struct ElmRect {
    pub data_id: i32,
    pub rect: Rect,
}

/// One link of a leaf's element chain; `next == -1` ends the chain.
#[derive(Clone, Copy, Debug)]
pub struct ElmRectNode {
    pub next: i32,
    pub elm_id: i32,
}

/// A tree node: a leaf when `count >= 0` (then `first_child` heads its
/// element chain, or is `-1`), a branch when `count == -1` (then its four
/// children sit at `first_child .. first_child + 4`).
#[derive(Clone, Copy, Debug)]
pub struct Node {
    pub first_child: i32,
    pub count: i32,
}

impl ElmRectNode {
    /// Prepends a chain entry for element `id` to the leaf `node`.
    pub fn insert(id: i32, node: &mut Node, element_nodes: &mut FreeList<ElmRectNode>)
        requires
            old(element_nodes).wf(),
            old(element_nodes).free_chain().len() > 0 || old(element_nodes).slots() < i32::MAX,
            0 <= old(node).count < i32::MAX,
        ensures
            final(element_nodes).wf(),
            final(node).count == old(node).count + 1,
            final(node).first_child >= 0,
            !old(element_nodes)@.contains_key(final(node).first_child as int),
            final(element_nodes)@ == old(element_nodes)@.insert(
                final(node).first_child as int,
                ElmRectNode { next: old(node).first_child, elm_id: id },
            ),
            old(element_nodes).free_chain().len() > 0 ==> final(element_nodes).free_chain() == old(element_nodes).free_chain().drop_first(),
            old(element_nodes).free_chain().len() == 0 ==> final(element_nodes).free_chain() == old(element_nodes).free_chain(),
            final(element_nodes).slots() == old(element_nodes).slots() + (if old(element_nodes).free_chain().len() > 0 { 0int } else { 1int }),
    {
        let current_first_child = node.first_child;
        let elm_node_index = element_nodes.insert(ElmRectNode { next: current_first_child, elm_id: id });
        node.count = node.count + 1;
        node.first_child = elm_node_index;
    }
}

impl Node {
    /// An empty leaf.
    pub fn leaf() -> (r: Node)
        ensures
            r.first_child == -1,
            r.count == 0,
    {
        Node { first_child: -1, count: 0 }
    }

    pub fn is_branch(&self) -> (r: bool)
        ensures
            r == (self.count == -1),
    {
        self.count == -1
    }

    pub fn is_leaf(&self) -> (r: bool)
        ensures
            r == (self.count >= 0),
    {
        self.count >= 0
    }
}

} // verus!
