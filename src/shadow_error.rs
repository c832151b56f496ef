use vstd::prelude::*;

verus! {

/// Every way in which building a scene or reading its input can fail.
#[derive(Debug, Clone, Copy, PartialEq, Eq, Structural)]
pub enum ShadowError {
    /// The number of posts announced by the input is out of range.
    FueraDeRango,
    /// The input ended before every announced line was read.
    LineaFaltante,
    /// A field of a line is not a valid integer.
    NumeroInvalido,
    /// A line does not hold exactly two fields.
    ValorFaltante,
    /// The elevation angle, in degrees, is out of range.
    InvalidAngle { value: i32 },
    /// The position or the height of a post is out of range.
    InvalidPositionOrHeight { value: i32 },
}

} // verus!
