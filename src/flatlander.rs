use vstd::prelude::*;

use crate::shadow_error::ShadowError;

verus! {

/// Largest ground coordinate at which a post may stand.
pub const MAX_POSITION: i32 = 300000;

/// Smallest height of a post.
pub const MIN_HEIGHT: i32 = 1;

/// Largest height of a post.
pub const MAX_HEIGHT: i32 = 1000;

pub open spec fn valid_position(x: int) -> bool {
    0 <= x <= MAX_POSITION
}

pub open spec fn valid_height(h: int) -> bool {
    MIN_HEIGHT <= h <= MAX_HEIGHT
}

/// The cotangent of the light's elevation angle, as the exact ratio
/// `num / den`, with `den` positive. A post of height `h` casts a shadow
/// `h * num / den` long.
#[derive(Debug, Clone, Copy, PartialEq, Eq, Structural)]
pub struct Cotangent {
    pub num: u64,
    pub den: u64,
}

/// Where the shadow of `f` begins on the ground, in units of `1 / c.den`.
pub open spec fn shadow_start(f: Flatlander, c: Cotangent) -> int {
    f.position() * c.den
}

/// How long the shadow of `f` is, in units of `1 / c.den`.
pub open spec fn shadow_length(f: Flatlander, c: Cotangent) -> int {
    f.height() * c.num
}

/// Where the shadow of `f` ends (exclusive), in units of `1 / c.den`.
pub open spec fn shadow_end(f: Flatlander, c: Cotangent) -> int {
    shadow_start(f, c) + shadow_length(f, c)
}

/// A post standing on the ground line: its position and its height.
/// Both always lie within their bounds.
#[derive(Debug, Clone, Copy, PartialEq, Eq, Structural)]
pub struct Flatlander {
    x: i32,
    h: i32,
}

impl Flatlander {
    #[verifier::type_invariant]
    spec fn inv(self) -> bool {
        valid_position(self.x as int) && valid_height(self.h as int)
    }

    /// The ground coordinate of the post.
    pub closed spec fn position(self) -> int {
        self.x as int
    }

    /// The height of the post.
    pub closed spec fn height(self) -> int {
        self.h as int
    }

    /// Creates a post, or reports the first field that is out of range.
    pub fn new(x: i32, h: i32) -> (r: Result<Flatlander, ShadowError>)
        ensures
            r matches Ok(f) ==> f.position() == x && f.height() == h,
            r is Ok <==> valid_position(x as int) && valid_height(h as int),
            !valid_position(x as int) ==> r == Err::<Flatlander, ShadowError>(
                ShadowError::InvalidPositionOrHeight { value: x },
            ),
            valid_position(x as int) && !valid_height(h as int) ==> r == Err::<
                Flatlander,
                ShadowError,
            >(ShadowError::InvalidPositionOrHeight { value: h }),
    {
        if !(0 <= x && x <= MAX_POSITION) {
            return Err(ShadowError::InvalidPositionOrHeight { value: x });
        } else if !(MIN_HEIGHT <= h && h <= MAX_HEIGHT) {
            return Err(ShadowError::InvalidPositionOrHeight { value: h });
        }
        Ok(Flatlander { x, h })
    }

    /// The length of this post's shadow, in units of `1 / cot.den`.
    pub fn calculate_shadow_length(&self, cot: Cotangent) -> (r: u128)
        ensures
            r == shadow_length(*self, cot),
            r <= MAX_HEIGHT * 0xffff_ffff_ffff_ffffu64,
    {
        proof {
            use_type_invariant(self);
        }
        assert(self.h as u64 * cot.num <= 1000 * 0xffff_ffff_ffff_ffffu64) by (nonlinear_arith)
            requires
                self.h <= 1000,
                self.h >= 1,
        ;
        self.h as u128 * cot.num as u128
    }

    /// Where this post's shadow begins, in units of `1 / cot.den`.
    pub(crate) fn shadow_start_at(&self, cot: Cotangent) -> (r: u128)
        ensures
            r == shadow_start(*self, cot),
            r <= MAX_POSITION * 0xffff_ffff_ffff_ffffu64,
    {
        proof {
            use_type_invariant(self);
        }
        assert(self.x as u64 * cot.den <= MAX_POSITION * 0xffff_ffff_ffff_ffffu64)
            by (nonlinear_arith)
            requires
                0 <= self.x <= MAX_POSITION,
        ;
        self.x as u128 * cot.den as u128
    }

    /// The position of the post.
    pub fn get_x(&self) -> (r: i32)
        ensures
            r == self.position(),
            valid_position(r as int),
    {
        proof {
            use_type_invariant(self);
        }
        self.x
    }

    /// The height of the post.
    pub fn get_h(&self) -> (r: i32)
        ensures
            r == self.height(),
            valid_height(r as int),
    {
        proof {
            use_type_invariant(self);
        }
        self.h
    }
}

} // verus!
