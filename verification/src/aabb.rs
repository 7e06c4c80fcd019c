use crate::rect2d::Rect2D;
use crate::vector::{fits_i32, Vector2};
use vstd::prelude::*;

verus! {

/// The extent of an entity around its position: half its width and half its
/// height.
#[derive(Clone, Copy, Debug, PartialEq, Eq, Structural)]
pub struct AxisAlignedBoundingBox {
    pub half_size: Vector2,
}

impl AxisAlignedBoundingBox {
    /// Neither half extent is negative.
    pub open spec fn wf(&self) -> bool {
        self.half_size.x >= 0 && self.half_size.y >= 0
    }

    /// The box for an entity `width` wide and `height` high. Each half
    /// extent is rounded down to a whole unit.
    pub fn new(width: i32, height: i32) -> (bbox: Self)
        requires
            width >= 0,
            height >= 0,
        ensures
            bbox.half_size.x == width / 2,
            bbox.half_size.y == height / 2,
            bbox.wf(),
    {
        AxisAlignedBoundingBox { half_size: Vector2 { x: width / 2, y: height / 2 } }
    }

    /// The rectangle around `translate` has corners that an `i32` can hold.
    pub open spec fn can_place(&self, translate: Vector2) -> bool {
        &&& fits_i32(translate.x - self.half_size.x)
        &&& fits_i32(translate.x + self.half_size.x)
        &&& fits_i32(translate.y - self.half_size.y)
        &&& fits_i32(translate.y + self.half_size.y)
    }

    /// The rectangle that the box covers when it is centred on `translate`.
    pub open spec fn spec_as_rect(&self, translate: Vector2) -> Rect2D {
        Rect2D {
            min: Vector2 {
                x: (translate.x - self.half_size.x) as i32,
                y: (translate.y - self.half_size.y) as i32,
            },
            max: Vector2 {
                x: (translate.x + self.half_size.x) as i32,
                y: (translate.y + self.half_size.y) as i32,
            },
        }
    }

    /// Places the box at `translate`.
    pub fn as_rect(&self, translate: Vector2) -> (rect: Rect2D)
        requires
            self.can_place(translate),
        ensures
            rect == self.spec_as_rect(translate),
            rect.min.x == translate.x - self.half_size.x,
            rect.max.x == translate.x + self.half_size.x,
            rect.min.y == translate.y - self.half_size.y,
            rect.max.y == translate.y + self.half_size.y,
            self.wf() ==> rect.wf(),
    {
        Rect2D {
            min: Vector2 { x: translate.x - self.half_size.x, y: translate.y - self.half_size.y },
            max: Vector2 { x: translate.x + self.half_size.x, y: translate.y + self.half_size.y },
        }
    }
}

} // verus!
