//! The colour palette used for facelet rendering.

use vstd::prelude::*;

verus! {

use crate::utils::fmt::{hex2_digits, push_hex2};
use vstd::string::StringExecFns;

/// An RGB colour, each component in `0..=255`.
#[derive(Debug, Clone, Copy, PartialEq, Eq, Structural)]
pub struct Color {
    pub r: i32,
    pub g: i32,
    pub b: i32,
}

/// The components describe a real colour channel value.
pub open spec fn rgb_in_range(c: Color) -> bool {
    0 <= c.r <= 255 && 0 <= c.g <= 255 && 0 <= c.b <= 255
}

/// `#RRGGBB`: a hash sign and three two-digit uppercase hex components.
pub open spec fn rgb_rendered(c: Color) -> Seq<char> {
    seq!['#'] + hex2_digits(c.r as nat) + hex2_digits(c.g as nat) + hex2_digits(c.b as nat)
}

impl Color {
    pub fn new(r: i32, g: i32, b: i32) -> (c: Self)
        ensures
            c == (Color { r, g, b }),
    {
        Color { r, g, b }
    }

    pub fn red() -> (c: Self)
        ensures
            c == (Color { r: 255, g: 0, b: 0 }),
    {
        Color { r: 255, g: 0, b: 0 }
    }

    pub fn green() -> (c: Self)
        ensures
            c == (Color { r: 0, g: 255, b: 0 }),
    {
        Color { r: 0, g: 255, b: 0 }
    }

    pub fn blue() -> (c: Self)
        ensures
            c == (Color { r: 0, g: 0, b: 255 }),
    {
        Color { r: 0, g: 0, b: 255 }
    }

    pub fn white() -> (c: Self)
        ensures
            c == (Color { r: 255, g: 255, b: 255 }),
    {
        Color { r: 255, g: 255, b: 255 }
    }

    pub fn black() -> (c: Self)
        ensures
            c == (Color { r: 0, g: 0, b: 0 }),
    {
        Color { r: 0, g: 0, b: 0 }
    }

    pub fn yellow() -> (c: Self)
        ensures
            c == (Color { r: 255, g: 255, b: 0 }),
    {
        Color { r: 255, g: 255, b: 0 }
    }

    pub fn orange() -> (c: Self)
        ensures
            c == (Color { r: 255, g: 128, b: 0 }),
    {
        Color { r: 255, g: 128, b: 0 }
    }

    pub fn grey() -> (c: Self)
        ensures
            c == (Color { r: 128, g: 128, b: 128 }),
    {
        Color { r: 128, g: 128, b: 128 }
    }

    /// The `#RRGGBB` text of the colour.
    pub fn to_string(&self) -> (s: String)
        requires
            rgb_in_range(*self),
        ensures
            s@ == rgb_rendered(*self),
    {
        let mut s = String::new();
        s.append("#");
        push_hex2(&mut s, self.r as usize);
        push_hex2(&mut s, self.g as usize);
        push_hex2(&mut s, self.b as usize);
        proof {
            reveal_strlit("#");
            assert(Seq::<char>::empty() + "#"@ =~= "#"@);
            assert("#"@ =~= seq!['#']);
            assert(s@ =~= rgb_rendered(*self));
        }
        s
    }
}

} // verus!
