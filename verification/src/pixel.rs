use vstd::prelude::*;

verus! {

/// One RGBA color value with four independent 16-bit channels.
#[derive(Clone, Copy, Debug, PartialEq, Eq, Structural)]
pub struct Pixel {
    pub r: u16,
    pub g: u16,
    pub b: u16,
    pub a: u16,
}

} // verus!
