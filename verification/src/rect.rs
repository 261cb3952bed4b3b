//! A small rectangle type with a containment comparison by area.

use vstd::prelude::*;

verus! {

/// An axis-aligned rectangle with integer side lengths.
pub struct Rectangle {
    pub width: u32,
    pub length: u32,
}

impl Rectangle {
    /// The rectangle's area.
    pub fn area(&self) -> (a: u32)
        requires
            self.width * self.length <= u32::MAX,
        ensures
            a == self.width * self.length,
    {
        self.width * self.length
    }

    /// Whether this rectangle's area strictly exceeds the other's.
    pub fn can_hold(&self, other: &Rectangle) -> (r: bool)
        requires
            self.width * self.length <= u32::MAX,
            other.width * other.length <= u32::MAX,
        ensures
            r == (self.width * self.length > other.width * other.length),
    {
        self.area() > other.area()
    }
}

} // verus!
