use vstd::prelude::*;

verus! {

/// One RGBA pixel. Channels are 8-bit; equality is exact and component-wise.
#[derive(Clone, Copy, PartialEq, Eq, Structural, Debug)]
pub struct Color {
    pub r: u8,
    pub g: u8,
    pub b: u8,
    pub a: u8,
}

impl Color {
    /// The fixed seed for both decode and encode: opaque black.
    pub open spec fn spec_black() -> Color {
        Color { r: 0, g: 0, b: 0, a: 255 }
    }

    /// The fill value of a fresh color cache: transparent black.
    pub open spec fn spec_trans() -> Color {
        Color { r: 0, g: 0, b: 0, a: 0 }
    }

    pub fn black() -> (c: Color)
        ensures
            c == Color::spec_black(),
    {
        Color { r: 0, g: 0, b: 0, a: 255 }
    }

    pub fn trans() -> (c: Color)
        ensures
            c == Color::spec_trans(),
    {
        Color { r: 0, g: 0, b: 0, a: 0 }
    }
}

/// The cache slot a color hashes to: (3r + 5g + 7b + 11a) mod 64.
pub open spec fn spec_index_position(c: Color) -> int {
    (3 * c.r + 5 * c.g + 7 * c.b + 11 * c.a) % 64
}

pub fn index_position(c: &Color) -> (i: usize)
    ensures
        i == spec_index_position(*c),
        i < 64,
{
    (3 * (c.r as usize) + 5 * (c.g as usize) + 7 * (c.b as usize) + 11 * (c.a as usize)) % 64
}

/// A fresh 64-slot color cache, every slot transparent black.
pub open spec fn spec_new_cache() -> Seq<Color> {
    Seq::new(64, |i: int| Color::spec_trans())
}

pub fn new_cache() -> (v: Vec<Color>)
    ensures
        v@ == spec_new_cache(),
{
    let mut v: Vec<Color> = Vec::new();
    let mut k: usize = 0;
    while k < 64
        invariant
            k <= 64,
            v@.len() == k,
            forall|i: int| 0 <= i < k ==> v@[i] == Color::spec_trans(),
        decreases 64 - k,
    {
        v.push(Color::trans());
        k += 1;
    }
    proof {
        assert(v@ =~= spec_new_cache());
    }
    v
}

} // verus!
