//! The colour type used by the SVG builder, and the face-to-colour schemes
//! of the cube renderer.

use vstd::prelude::*;

verus! {

use crate::puzzles::cube::Face;
use crate::utils::fmt::{hex2_digits, push_hex2};
use vstd::string::StringExecFns;

/// An RGB colour, each component in `0..=255`.
#[derive(Debug, Clone, Copy, PartialEq, Eq, Structural)]
pub struct Color(pub i32, pub i32, pub i32);

/// The components describe a real colour channel value.
pub open spec fn color_in_range(c: Color) -> bool {
    0 <= c.0 <= 255 && 0 <= c.1 <= 255 && 0 <= c.2 <= 255
}

/// `#RRGGBB`: a hash sign and three two-digit uppercase hex components.
pub open spec fn color_rendered(c: Color) -> Seq<char> {
    seq!['#'] + hex2_digits(c.0 as nat) + hex2_digits(c.1 as nat) + hex2_digits(c.2 as nat)
}

impl Color {
    /// The `#RRGGBB` text of the colour.
    pub fn to_string(&self) -> (s: String)
        requires
            color_in_range(*self),
        ensures
            s@ == color_rendered(*self),
    {
        let mut s = String::new();
        s.append("#");
        push_hex2(&mut s, self.0 as usize);
        push_hex2(&mut s, self.1 as usize);
        push_hex2(&mut s, self.2 as usize);
        proof {
            reveal_strlit("#");
            assert(Seq::<char>::empty() + "#"@ =~= "#"@);
            assert("#"@ =~= seq!['#']);
            assert(s@ =~= color_rendered(*self));
        }
        s
    }
}

/// A mapping from the six faces to fill colours.  A face left without an
/// entry is painted black by the renderer.
pub struct ColorScheme {
    pub entries: Vec<Option<Color>>,
}

impl ColorScheme {
    /// Six optional entries, every present colour with its components in
    /// range.
    pub open spec fn wf(&self) -> bool {
        &&& self.entries@.len() == 6
        &&& forall|i: int|
            0 <= i < 6 ==> ((#[trigger] self.entries@[i]) matches Some(c) ==> color_in_range(c))
    }

    /// The entry of the face with index `f`.
    pub open spec fn mapped(&self, f: int) -> Option<Color> {
        self.entries@[f]
    }

    /// A scheme with no colour assigned to any face.
    pub fn empty() -> (r: ColorScheme)
        ensures
            r.wf(),
            forall|i: int| 0 <= i < 6 ==> #[trigger] r.mapped(i) is None,
    {
        let mut entries: Vec<Option<Color>> = Vec::new();
        let mut i: usize = 0;
        while i < 6
            invariant
                i <= 6,
                entries@.len() == i,
                forall|k: int| 0 <= k < i ==> #[trigger] entries@[k] is None,
            decreases 6 - i,
        {
            entries.push(None);
            i += 1;
        }
        ColorScheme { entries }
    }

    /// Assigns a colour to one face.
    pub fn set(&mut self, face: Face, color: Color)
        requires
            old(self).wf(),
            color_in_range(color),
        ensures
            final(self).wf(),
            forall|i: int|
                0 <= i < 6 ==> #[trigger] final(self).mapped(i) == (if i == face.index_spec() {
                    Some(color)
                } else {
                    old(self).mapped(i)
                }),
    {
        let fi = face.index();
        self.entries[fi] = Some(color);
    }

    /// The colour assigned to a face, if any.
    pub fn get(&self, face: Face) -> (r: Option<Color>)
        requires
            self.wf(),
        ensures
            r == self.mapped(face.index_spec()),
            r matches Some(c) ==> color_in_range(c),
    {
        let fi = face.index();
        self.entries[fi]
    }

    /// The colour assigned to the face with index `f`, if any.
    pub fn get_by_index(&self, f: usize) -> (r: Option<Color>)
        requires
            self.wf(),
            f < 6,
        ensures
            r == self.mapped(f as int),
            r matches Some(c) ==> color_in_range(c),
    {
        self.entries[f]
    }
}

/// The colour a face index is filled with under a mapping: its entry, or
/// black where the mapping has none.
pub open spec fn fill_of(mapping: Seq<Option<Color>>, f: int) -> Color {
    match mapping[f] {
        Some(c) => c,
        None => Color(0, 0, 0),
    }
}

/// The standard mapping: R red, U white, F green, L orange, D yellow,
/// B blue.
pub open spec fn default_mapping() -> Seq<Option<Color>> {
    seq![
        Some(Color(255, 0, 0)),
        Some(Color(255, 255, 255)),
        Some(Color(0, 255, 0)),
        Some(Color(255, 128, 0)),
        Some(Color(255, 255, 0)),
        Some(Color(0, 0, 255)),
    ]
}

/// The standard scheme: R red, U white, F green, L orange, D yellow, B blue.
pub fn default_color_scheme() -> (r: ColorScheme)
    ensures
        r.wf(),
        r.entries@ == default_mapping(),
{
    let mut s = ColorScheme::empty();
    s.set(Face::R, Color(255, 0, 0));
    s.set(Face::U, Color(255, 255, 255));
    s.set(Face::F, Color(0, 255, 0));
    s.set(Face::L, Color(255, 128, 0));
    s.set(Face::D, Color(255, 255, 0));
    s.set(Face::B, Color(0, 0, 255));
    proof {
        assert(s.mapped(0) == Some(Color(255, 0, 0)));
        assert(s.mapped(1) == Some(Color(255, 255, 255)));
        assert(s.mapped(2) == Some(Color(0, 255, 0)));
        assert(s.mapped(3) == Some(Color(255, 128, 0)));
        assert(s.mapped(4) == Some(Color(255, 255, 0)));
        assert(s.mapped(5) == Some(Color(0, 0, 255)));
        assert(s.entries@ =~= default_mapping());
    }
    s
}

} // verus!
