//! Selection algebra: declarative descriptions of sets of grid
//! coordinates. A selection is a single point, a rectangle, or the
//! union of two selections; `coordinates` yields the described cells
//! as an ordered sequence (a union keeps duplicates).

use vstd::prelude::*;

verus! {

/// A grid-relative coordinate pair.
#[derive(Clone, Copy, Debug, PartialEq, Eq, Structural)]
pub struct Coordinate {
    pub x: u32,
    pub y: u32,
}

impl Coordinate {
    pub fn new(x: u32, y: u32) -> (c: Coordinate)
        ensures
            c.x == x,
            c.y == y,
    {
        Coordinate { x, y }
    }
}

/// A rectangle covering the half-open ranges `[x, x+width)` by
/// `[y, y+height)`. It is not clipped against any map; out-of-range
/// coordinates are filtered by the consumer, not here.
#[derive(Clone, Copy, Debug, PartialEq, Eq, Structural)]
pub struct Rectangle {
    pub x: u32,
    pub y: u32,
    pub width: u32,
    pub height: u32,
}

impl Rectangle {
    pub fn new(x: u32, y: u32, width: u32, height: u32) -> (r: Rectangle)
        ensures
            r.x == x,
            r.y == y,
            r.width == width,
            r.height == height,
    {
        Rectangle { x, y, width, height }
    }
}

/// A composable description of a set of grid coordinates.
pub enum Selection {
    Point(Coordinate),
    Rect(Rectangle),
    Union(Box<Selection>, Box<Selection>),
}

/// The coordinates a rectangle enumerates: `x` outer, `y` inner, so
/// index `k` is `(x + k / height, y + k % height)`.
pub open spec fn rect_coords(r: Rectangle) -> Seq<Coordinate> {
    Seq::new(
        (r.width * r.height) as nat,
        |k: int|
            Coordinate {
                x: (r.x + k / (r.height as int)) as u32,
                y: (r.y + k % (r.height as int)) as u32,
            },
    )
}

/// The ordered coordinate sequence a selection describes. A union is
/// the concatenation of its two operands' sequences, duplicates kept.
pub open spec fn sel_coords(s: Selection) -> Seq<Coordinate>
    decreases s,
{
    match s {
        Selection::Point(c) => seq![c],
        Selection::Rect(r) => rect_coords(r),
        Selection::Union(a, b) => sel_coords(*a) + sel_coords(*b),
    }
}

/// A selection stays within the coordinate space: every rectangle in
/// it fits in `u32`, and its coordinate count fits in `usize`.
pub open spec fn sel_fits(s: Selection) -> bool
    decreases s,
{
    &&& sel_coords(s).len() <= usize::MAX
    &&& match s {
        Selection::Point(c) => true,
        Selection::Rect(r) => r.x + r.width <= u32::MAX && r.y + r.height <= u32::MAX,
        Selection::Union(a, b) => sel_fits(*a) && sel_fits(*b),
    }
}

impl Selection {
    /// The union of `self` and `b`: its coordinate sequence is
    /// `self`'s followed by `b`'s, duplicates retained.
    pub fn and(self, b: Selection) -> (r: Selection)
        ensures
            sel_coords(r) == sel_coords(self) + sel_coords(b),
            sel_fits(r) <==> (sel_fits(self) && sel_fits(b) && sel_coords(self).len()
                + sel_coords(b).len() <= usize::MAX),
    {
        Selection::Union(Box::new(self), Box::new(b))
    }

    /// Materializes the described coordinates, in order.
    pub fn coordinates(&self) -> (r: Vec<Coordinate>)
        requires
            sel_fits(*self),
        ensures
            r@ == sel_coords(*self),
        decreases *self,
    {
        match self {
            Selection::Point(c) => {
                let mut out: Vec<Coordinate> = Vec::new();
                out.push(*c);
                assert(out@ =~= sel_coords(*self));
                out
            },
            Selection::Rect(rect) => rect_coordinates(rect),
            Selection::Union(a, b) => {
                proof {
                    assert(sel_coords(**a).len() <= sel_coords(*self).len());
                }
                let mut out = a.coordinates();
                let second = b.coordinates();
                let mut i: usize = 0;
                while i < second.len()
                    invariant
                        i <= second.len(),
                        out@ == sel_coords(**a) + second@.take(i as int),
                        second@ == sel_coords(**b),
                        sel_coords(**a).len() + sel_coords(**b).len() <= usize::MAX,
                    decreases second.len() - i,
                {
                    out.push(second[i]);
                    assert(out@ =~= sel_coords(**a) + second@.take(i + 1 as int));
                    i = i + 1;
                }
                assert(second@.take(second@.len() as int) =~= second@);
                out
            },
        }
    }
}

/// Enumerates a rectangle's cells, `x` outer, `y` inner.
fn rect_coordinates(r: &Rectangle) -> (out: Vec<Coordinate>)
    requires
        r.x + r.width <= u32::MAX,
        r.y + r.height <= u32::MAX,
        r.width * r.height <= usize::MAX,
    ensures
        out@ == rect_coords(*r),
{
    let mut out: Vec<Coordinate> = Vec::new();
    let mut dx: u32 = 0;
    while dx < r.width
        invariant
            dx <= r.width,
            r.x + r.width <= u32::MAX,
            r.y + r.height <= u32::MAX,
            r.width * r.height <= usize::MAX,
            out@.len() == dx * r.height,
            forall|k: int|
                0 <= k < out@.len() ==> out@[k] == rect_coords(*r)[k],
        decreases r.width - dx,
    {
        let mut dy: u32 = 0;
        proof {
            assert((dx + 1) * r.height <= r.width * r.height) by (nonlinear_arith)
                requires
                    dx < r.width,
            ;
        }
        while dy < r.height
            invariant
                dy <= r.height,
                dx < r.width,
                r.x + r.width <= u32::MAX,
                r.y + r.height <= u32::MAX,
                r.width * r.height <= usize::MAX,
                (dx + 1) * r.height <= r.width * r.height,
                out@.len() == dx * r.height + dy,
                forall|k: int|
                    0 <= k < out@.len() ==> out@[k] == rect_coords(*r)[k],
            decreases r.height - dy,
        {
            let c = Coordinate { x: r.x + dx, y: r.y + dy };
            proof {
                let k = out@.len() as int;
                assert(k == dx * r.height + dy);
                assert(dx * r.height + dy < (dx + 1) * r.height) by (nonlinear_arith)
                    requires
                        dy < r.height,
                ;
                assert(k / (r.height as int) == dx && k % (r.height as int) == dy)
                    by (nonlinear_arith)
                    requires
                        k == dx * r.height + dy,
                        0 <= dy < r.height,
                ;
            }
            out.push(c);
            dy = dy + 1;
        }
        proof {
            assert((dx + 1) * r.height == dx * r.height + r.height) by (nonlinear_arith);
        }
        dx = dx + 1;
    }
    proof {
        assert(out@.len() == rect_coords(*r).len());
        assert(out@ =~= rect_coords(*r));
    }
    out
}

/// The coordinate count of a union is the sum of its operands'
/// counts: duplicates are retained, nothing is deduplicated.
pub proof fn lemma_union_coordinate_count(a: Selection, b: Selection)
    ensures
        sel_coords(Selection::Union(Box::new(a), Box::new(b))).len() == sel_coords(a).len()
            + sel_coords(b).len(),
{
}

} // verus!
