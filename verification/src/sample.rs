//! A miniature API surface: a few documented items of every common shape,
//! kept as the reference input that the conversion tests describe.

use vstd::prelude::*;

verus! {

/// A 2D point with integer coordinates.
pub struct Point {
    /// The x coordinate
    pub x: i32,
    /// The y coordinate
    pub y: i32,
}

/// A color with three named variants and one custom RGB variant.
pub enum Color {
    /// Red color
    Red,
    /// Green color
    Green,
    /// Blue color
    Blue,
    /// Custom RGB color with values 0-255
    Rgb(u8, u8, u8),
}

/// Adds two numbers together.
pub fn add(a: i32, b: i32) -> (r: i32)
    requires
        i32::MIN <= a + b <= i32::MAX,
    ensures
        r == a + b,
{
    a + b
}

/// Multiplies two numbers.
pub fn multiply(a: i32, b: i32) -> (r: i32)
    requires
        i32::MIN <= a * b <= i32::MAX,
    ensures
        r == a * b,
{
    a * b
}

/// A generic container for any type.
pub struct Container<T> {
    /// The value stored in the container
    pub value: T,
}

impl<T> Container<T> {
    /// Creates a new container with the given value.
    pub fn new(value: T) -> (r: Self)
        ensures
            r.value == value,
    {
        Container { value }
    }
}

} // verus!
