use vstd::prelude::*;

verus! {

/// A point or displacement in the plane, in whole world units.
#[derive(Clone, Copy, Debug, PartialEq, Eq, Structural)]
pub struct Vector2 {
    pub x: i32,
    pub y: i32,
}

/// A displacement in space. The physics acts on `x` and `y`; `z` is carried
/// along for the caller's bookkeeping.
#[derive(Clone, Copy, Debug, PartialEq, Eq, Structural)]
pub struct Vector3 {
    pub x: i32,
    pub y: i32,
    pub z: i32,
}

/// The identity of an entity in the caller's component store.
#[derive(Clone, Copy, Debug, PartialEq, Eq, Structural)]
pub struct EntityRef {
    pub bits: u64,
}

/// Whether `v` can be stored in an `i32`.
pub open spec fn fits_i32(v: int) -> bool {
    i32::MIN <= v <= i32::MAX
}

impl Vector2 {
    /// The vector with the components `x` and `y`.
    pub fn new(x: i32, y: i32) -> (v: Self)
        ensures
            v == (Vector2 { x, y }),
    {
        Vector2 { x, y }
    }

    /// Whether the component-wise sum with `other` is representable.
    pub open spec fn can_add(self, other: Vector2) -> bool {
        fits_i32(self.x + other.x) && fits_i32(self.y + other.y)
    }

    /// The component-wise sum, meaningful where `can_add` holds.
    pub open spec fn plus(self, other: Vector2) -> Vector2 {
        Vector2 { x: (self.x + other.x) as i32, y: (self.y + other.y) as i32 }
    }

    /// Adds `other` component by component.
    pub fn offset(self, other: Vector2) -> (sum: Vector2)
        requires
            self.can_add(other),
        ensures
            sum == self.plus(other),
            sum.x == self.x + other.x,
            sum.y == self.y + other.y,
    {
        Vector2 { x: self.x + other.x, y: self.y + other.y }
    }
}

impl Vector3 {
    /// The vector with every component zero.
    pub open spec fn spec_zero() -> Vector3 {
        Vector3 { x: 0, y: 0, z: 0 }
    }

    /// The vector with every component zero.
    #[verifier::when_used_as_spec(spec_zero)]
    pub fn zero() -> (v: Self)
        ensures
            v == Self::spec_zero(),
    {
        Vector3 { x: 0, y: 0, z: 0 }
    }

    /// The vector with the components `x`, `y` and `z`.
    pub fn new(x: i32, y: i32, z: i32) -> (v: Self)
        ensures
            v == (Vector3 { x, y, z }),
    {
        Vector3 { x, y, z }
    }

    /// The `x` and `y` components.
    pub open spec fn xy(self) -> Vector2 {
        Vector2 { x: self.x, y: self.y }
    }

    /// Drops the `z` component.
    pub fn truncate(self) -> (v: Vector2)
        ensures
            v == self.xy(),
    {
        Vector2 { x: self.x, y: self.y }
    }

    /// Whether the component-wise sum with `other` is representable.
    pub open spec fn can_add(self, other: Vector3) -> bool {
        fits_i32(self.x + other.x) && fits_i32(self.y + other.y) && fits_i32(self.z + other.z)
    }

    /// The component-wise sum, meaningful where `can_add` holds.
    pub open spec fn plus(self, other: Vector3) -> Vector3 {
        Vector3 {
            x: (self.x + other.x) as i32,
            y: (self.y + other.y) as i32,
            z: (self.z + other.z) as i32,
        }
    }

    /// Adds `other` component by component.
    pub fn offset(self, other: Vector3) -> (sum: Vector3)
        requires
            self.can_add(other),
        ensures
            sum == self.plus(other),
            sum.x == self.x + other.x,
            sum.y == self.y + other.y,
            sum.z == self.z + other.z,
    {
        Vector3 { x: self.x + other.x, y: self.y + other.y, z: self.z + other.z }
    }
}

} // verus!
