//! Plain descriptions of pictures and their rates.

use vstd::prelude::*;

verus! {

/// The size of a picture in pixels.
#[derive(Debug, Clone, Copy, PartialEq, Eq, Structural, Hash)]
pub struct Resolution {
    pub width: usize,
    pub height: usize,
}

/// Pictures per second, as a fraction.
#[derive(Debug, Clone, Copy, PartialEq, Eq, Structural, Hash)]
pub struct Framerate {
    pub num: u32,
    pub den: u32,
}

/// The size of a decoded or encoded picture.
#[derive(Debug, Clone, Copy, PartialEq, Eq, Structural, Hash)]
pub struct VideoResolution {
    pub width: u32,
    pub height: u32,
}

/// The size of a texture: a stack of `depth_or_array_layers` pictures.
#[derive(Debug, Clone, Copy, PartialEq, Eq, Structural, Hash)]
pub struct Extent {
    pub width: u32,
    pub height: u32,
    pub depth_or_array_layers: u32,
}

impl VideoResolution {
    /// The texture that holds one picture of this size.
    pub fn extent_2d(self) -> (r: Extent)
        ensures
            r == (Extent { width: self.width, height: self.height, depth_or_array_layers: 1 }),
    {
        Extent { width: self.width, height: self.height, depth_or_array_layers: 1 }
    }
}

/// A frame rate whose numerator and denominator are never zero.
#[derive(Debug, Clone, Copy, PartialEq, Eq, Structural, Hash)]
pub struct VideoFramerate {
    num: u32,
    den: u32,
}

impl VideoFramerate {
    #[verifier::type_invariant]
    spec fn inv(self) -> bool {
        self.num > 0 && self.den > 0
    }

    /// The numerator.
    pub closed spec fn spec_num(self) -> int {
        self.num as int
    }

    /// The denominator.
    pub closed spec fn spec_den(self) -> int {
        self.den as int
    }

    /// A frame rate of `num / den`; there is none where either is zero.
    pub fn new(num: u32, den: u32) -> (r: Option<Self>)
        ensures
            r is Some <==> num != 0 && den != 0,
            r is Some ==> r->0.spec_num() == num && r->0.spec_den() == den,
    {
        if num == 0 || den == 0 {
            None
        } else {
            Some(VideoFramerate { num, den })
        }
    }

    /// The numerator, which is not zero.
    pub fn num(&self) -> (r: u32)
        ensures
            r == self.spec_num(),
            r != 0,
    {
        proof {
            use_type_invariant(self);
        }
        self.num
    }

    /// The denominator, which is not zero.
    pub fn den(&self) -> (r: u32)
        ensures
            r == self.spec_den(),
            r != 0,
    {
        proof {
            use_type_invariant(self);
        }
        self.den
    }
}

} // verus!
