use crate::vector::Vector2;
use vstd::prelude::*;

verus! {

/// An axis-aligned rectangle, closed on every side.
#[derive(Clone, Copy, Debug, PartialEq, Eq, Structural)]
pub struct Rect2D {
    pub min: Vector2,
    pub max: Vector2,
}

/// The midpoint of `a` and `b`, rounded down to a whole unit.
pub open spec fn midpoint(a: int, b: int) -> int {
    (a + b) / 2
}

/// Computes `midpoint` without leaving the range of `i32`.
pub fn midpoint_of(a: i32, b: i32) -> (m: i32)
    ensures
        m == midpoint(a as int, b as int),
{
    let sum: i64 = a as i64 + b as i64;
    let half: i64 = if sum >= 0 {
        sum / 2
    } else {
        -((1 - sum) / 2)
    };
    half as i32
}

impl Rect2D {
    /// `min` is not beyond `max` on either axis.
    pub open spec fn wf(self) -> bool {
        self.min.x <= self.max.x && self.min.y <= self.max.y
    }

    /// The point `(x, y)` lies in the rectangle or on its boundary.
    pub open spec fn contains_point(self, x: int, y: int) -> bool {
        self.min.x <= x <= self.max.x && self.min.y <= y <= self.max.y
    }

    /// `other` lies wholly inside this rectangle.
    pub open spec fn contains(self, other: Rect2D) -> bool {
        &&& self.min.x <= other.min.x
        &&& other.max.x <= self.max.x
        &&& self.min.y <= other.min.y
        &&& other.max.y <= self.max.y
    }

    /// The projections of the two rectangles overlap on both axes. Touching
    /// edges count.
    pub open spec fn intersects(self, other: Rect2D) -> bool {
        &&& self.min.x <= other.max.x
        &&& self.max.x >= other.min.x
        &&& self.min.y <= other.max.y
        &&& self.max.y >= other.min.y
    }

    /// The two rectangles share a region of positive width and height.
    pub open spec fn overlaps_interior(self, other: Rect2D) -> bool {
        &&& self.min.x < other.max.x
        &&& other.min.x < self.max.x
        &&& self.min.y < other.max.y
        &&& other.min.y < self.max.y
    }

    /// The point at which `quadrants` splits the rectangle.
    pub open spec fn center(self) -> Vector2 {
        Vector2 {
            x: midpoint(self.min.x as int, self.max.x as int) as i32,
            y: midpoint(self.min.y as int, self.max.y as int) as i32,
        }
    }

    /// The four quadrants in the order top-left, top-right, bottom-left,
    /// bottom-right, where the top is the `min.y` side.
    pub open spec fn spec_quadrants(self) -> Seq<Rect2D> {
        let c = self.center();
        seq![
            Rect2D { min: self.min, max: c },
            Rect2D { min: Vector2 { x: c.x, y: self.min.y }, max: Vector2 { x: self.max.x, y: c.y } },
            Rect2D { min: Vector2 { x: self.min.x, y: c.y }, max: Vector2 { x: c.x, y: self.max.y } },
            Rect2D { min: c, max: self.max },
        ]
    }

    /// Builds the rectangle spanning `min` to `max`.
    pub fn new(min: Vector2, max: Vector2) -> (r: Self)
        requires
            min.x <= max.x,
            min.y <= max.y,
        ensures
            r == (Rect2D { min, max }),
            r.wf(),
    {
        Rect2D { min, max }
    }

    /// Tests whether two rectangles overlap or touch.
    pub fn intersect(&self, other: &Self) -> (hit: bool)
        ensures
            hit == self.intersects(*other),
    {
        self.min.x <= other.max.x && self.max.x >= other.min.x && self.min.y <= other.max.y
            && self.max.y >= other.min.y
    }

    /// Splits the rectangle at its center into four quadrants.
    pub fn quadrants(&self) -> (quads: Vec<Self>)
        ensures
            quads@ == self.spec_quadrants(),
    {
        let center = Vector2 {
            x: midpoint_of(self.min.x, self.max.x),
            y: midpoint_of(self.min.y, self.max.y),
        };
        let mut quads: Vec<Rect2D> = Vec::new();
        quads.push(Rect2D { min: self.min, max: center });
        quads.push(
            Rect2D {
                min: Vector2 { x: center.x, y: self.min.y },
                max: Vector2 { x: self.max.x, y: center.y },
            },
        );
        quads.push(
            Rect2D {
                min: Vector2 { x: self.min.x, y: center.y },
                max: Vector2 { x: center.x, y: self.max.y },
            },
        );
        quads.push(Rect2D { min: center, max: self.max });
        assert(quads@ =~= self.spec_quadrants());
        quads
    }
}

/// Intersection does not depend on the order of its operands.
pub proof fn lemma_intersect_symmetric(a: Rect2D, b: Rect2D)
    ensures
        a.intersects(b) == b.intersects(a),
{
}

/// A well-formed rectangle intersects itself.
pub proof fn lemma_intersect_reflexive(a: Rect2D)
    requires
        a.wf(),
    ensures
        a.intersects(a),
{
}

/// Two well-formed rectangles that share a vertical edge and whose vertical
/// extents overlap intersect.
pub proof fn lemma_intersect_shared_vertical_edge(a: Rect2D, b: Rect2D)
    requires
        a.wf(),
        b.wf(),
        a.max.x == b.min.x,
        a.min.y <= b.max.y,
        b.min.y <= a.max.y,
    ensures
        a.intersects(b),
        b.intersects(a),
{
}

/// Two well-formed rectangles that share a horizontal edge and whose
/// horizontal extents overlap intersect.
pub proof fn lemma_intersect_shared_horizontal_edge(a: Rect2D, b: Rect2D)
    requires
        a.wf(),
        b.wf(),
        a.max.y == b.min.y,
        a.min.x <= b.max.x,
        b.min.x <= a.max.x,
    ensures
        a.intersects(b),
        b.intersects(a),
{
}

/// Two well-formed rectangles intersect exactly when some point lies in both.
pub proof fn lemma_intersects_iff_common_point(a: Rect2D, b: Rect2D)
    requires
        a.wf(),
        b.wf(),
    ensures
        a.intersects(b) <==> exists|x: int, y: int|
            a.contains_point(x, y) && b.contains_point(x, y),
{
    if a.intersects(b) {
        let x = if a.min.x >= b.min.x { a.min.x as int } else { b.min.x as int };
        let y = if a.min.y >= b.min.y { a.min.y as int } else { b.min.y as int };
        assert(a.contains_point(x, y) && b.contains_point(x, y));
    }
}

/// The quadrants of a well-formed rectangle are well formed, lie inside it,
/// and all meet at its center.
pub proof fn lemma_quadrants_inside(r: Rect2D, i: int)
    requires
        r.wf(),
        0 <= i < 4,
    ensures
        r.spec_quadrants()[i].wf(),
        r.contains(r.spec_quadrants()[i]),
        r.spec_quadrants()[i].contains_point(r.center().x as int, r.center().y as int),
{
}

/// The quadrants of a well-formed rectangle cover exactly its points, and no
/// two of them share a region of positive area.
pub proof fn lemma_quadrants_cover(r: Rect2D)
    requires
        r.wf(),
    ensures
        r.spec_quadrants().len() == 4,
        forall|x: int, y: int|
            r.contains_point(x, y) <==> exists|i: int|
                0 <= i < 4 && #[trigger] r.spec_quadrants()[i].contains_point(x, y),
        forall|i: int, j: int|
            0 <= i < 4 && 0 <= j < 4 && i != j ==> !(#[trigger] r.spec_quadrants()[i]).overlaps_interior(
                #[trigger] r.spec_quadrants()[j],
            ),
{
    let q = r.spec_quadrants();
    let c = r.center();
    assert forall|x: int, y: int| r.contains_point(x, y) implies exists|i: int|
        0 <= i < 4 && #[trigger] r.spec_quadrants()[i].contains_point(x, y) by {
        if x <= c.x {
            if y <= c.y {
                assert(q[0].contains_point(x, y));
            } else {
                assert(q[2].contains_point(x, y));
            }
        } else {
            if y <= c.y {
                assert(q[1].contains_point(x, y));
            } else {
                assert(q[3].contains_point(x, y));
            }
        }
    }
}

} // verus!
