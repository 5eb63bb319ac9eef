//! One SVG element: a named tag with attributes, rendered as text.

use vstd::prelude::*;

verus! {

use crate::color::{Color, color_in_range, color_rendered};
use crate::utils::fmt::dec_digits;
use crate::utils::fmt::push_dec;
use vstd::string::StringExecFns;
use vstd::string::StringSliceAdditionalSpecFns;
use vstd::utf8::encode_utf8_decode_utf8;

/// An SVG tag with its attribute list, kept in insertion order.
pub struct Element {
    pub name: String,
    pub attributes: Vec<(String, String)>,
}

/// The attribute list as pairs of character sequences.
pub open spec fn pairs_view(v: Seq<(String, String)>) -> Seq<(Seq<char>, Seq<char>)> {
    Seq::new(v.len(), |i: int| (v[i].0@, v[i].1@))
}

/// The attribute list with the first entry whose key equals `k` replaced by
/// value `v`, or with `(k, v)` appended when no entry has that key.
pub open spec fn pairs_set(ps: Seq<(Seq<char>, Seq<char>)>, k: Seq<char>, v: Seq<char>) -> Seq<
    (Seq<char>, Seq<char>),
>
    decreases ps.len(),
{
    if ps.len() == 0 {
        seq![(k, v)]
    } else if ps[0].0 == k {
        seq![(ps[0].0, v)] + ps.drop_first()
    } else {
        seq![ps[0]] + pairs_set(ps.drop_first(), k, v)
    }
}

proof fn lemma_pairs_set_at(ps: Seq<(Seq<char>, Seq<char>)>, k: Seq<char>, v: Seq<char>, i: int)
    requires
        0 <= i <= ps.len(),
        forall|j: int| 0 <= j < i ==> (#[trigger] ps[j]).0 != k,
        i < ps.len() ==> ps[i].0 == k,
    ensures
        i < ps.len() ==> pairs_set(ps, k, v) == ps.update(i, (ps[i].0, v)),
        i == ps.len() ==> pairs_set(ps, k, v) == ps.push((k, v)),
    decreases ps.len(),
{
    if ps.len() == 0 {
        assert(pairs_set(ps, k, v) =~= ps.push((k, v)));
    } else if i == 0 {
        if i < ps.len() {
            assert(pairs_set(ps, k, v) =~= ps.update(0, (ps[0].0, v)));
        }
    } else {
        let t = ps.drop_first();
        assert(forall|j: int| 0 <= j < i - 1 ==> (#[trigger] t[j]).0 != k);
        lemma_pairs_set_at(t, k, v, i - 1);
        if i < ps.len() {
            assert(pairs_set(ps, k, v) =~= ps.update(i, (ps[i].0, v)));
        } else {
            assert(pairs_set(ps, k, v) =~= ps.push((k, v)));
        }
    }
}

/// ` key="value"` for every attribute, in list order.
pub open spec fn attrs_rendered(ps: Seq<(Seq<char>, Seq<char>)>) -> Seq<char>
    decreases ps.len(),
{
    if ps.len() == 0 {
        Seq::empty()
    } else {
        attrs_rendered(ps.drop_last()) + seq![' '] + ps.last().0 + seq!['=', '"'] + ps.last().1
            + seq!['"']
    }
}

/// `<name key="value" .../>`.
pub open spec fn element_rendered(name: Seq<char>, ps: Seq<(Seq<char>, Seq<char>)>) -> Seq<char> {
    seq!['<'] + name + attrs_rendered(ps) + seq!['/', '>']
}

/// Whether two strings hold the same text.
pub(crate) fn str_eq(a: &str, b: &str) -> (r: bool)
    ensures
        r == (a@ == b@),
{
    proof {
        encode_utf8_decode_utf8(a@);
        encode_utf8_decode_utf8(b@);
    }
    let ab = a.as_bytes();
    let bb = b.as_bytes();
    if ab.len() != bb.len() {
        proof {
            assert(a@ != b@);
        }
        return false;
    }
    let n = ab.len();
    let mut i: usize = 0;
    while i < n
        invariant
            i <= n,
            n == ab@.len(),
            n == bb@.len(),
            ab@ == a.spec_bytes(),
            bb@ == b.spec_bytes(),
            forall|j: int| 0 <= j < i ==> ab@[j] == bb@[j],
        decreases n - i,
    {
        if ab[i] != bb[i] {
            proof {
                assert(a.spec_bytes() != b.spec_bytes());
                encode_utf8_decode_utf8(a@);
                encode_utf8_decode_utf8(b@);
                assert(a@ != b@);
            }
            return false;
        }
        i += 1;
    }
    proof {
        assert(a.spec_bytes() =~= b.spec_bytes());
        assert(a@ == b@);
    }
    true
}

/// The attribute-setting step shared by elements and whole documents: the
/// first entry with the key keeps its place and receives the new value,
/// otherwise the pair is appended.
pub(crate) fn set_pair_exec(attributes: &mut Vec<(String, String)>, key: String, value: String)
    ensures
        pairs_view(final(attributes)@) == pairs_set(pairs_view(old(attributes)@), key@, value@),
{
    let ghost ps = pairs_view(attributes@);
    let n = attributes.len();
    let mut i: usize = 0;
    while i < n
        invariant
            i <= n,
            n == attributes@.len(),
            ps == pairs_view(attributes@),
            ps == pairs_view(old(attributes)@),
            forall|j: int| 0 <= j < i ==> (#[trigger] ps[j]).0 != key@,
        decreases n - i,
    {
        if str_eq(attributes[i].0.as_str(), key.as_str()) {
            proof {
                assert(ps[i as int].0 == key@);
            }
            attributes[i].1 = value;
            proof {
                lemma_pairs_set_at(ps, key@, value@, i as int);
                assert(pairs_view(attributes@) =~= ps.update(i as int, (ps[i as int].0, value@)));
                assert(pairs_view(attributes@) =~~= pairs_set(ps, key@, value@));
            }
            return ;
        }
        i += 1;
    }
    attributes.push((key, value));
    proof {
        lemma_pairs_set_at(ps, key@, value@, n as int);
        assert(pairs_view(attributes@) =~= ps.push((key@, value@)));
        assert(pairs_view(attributes@) =~~= pairs_set(ps, key@, value@));
    }
}

impl Element {
    /// Sets one attribute: an existing key keeps its place and receives the
    /// new value, a new key is appended.
    pub fn set_attribute(&mut self, key: String, value: String)
        ensures
            final(self).name == old(self).name,
            pairs_view(final(self).attributes@) == pairs_set(
                pairs_view(old(self).attributes@),
                key@,
                value@,
            ),
    {
        set_pair_exec(&mut self.attributes, key, value);
    }

    /// Looks an attribute up and discards the result; the element is left
    /// unchanged.
    pub fn get_attribute(&mut self, key: &str)
        ensures
            *final(self) == *old(self),
    {
    }

    /// Turns the element into a rectangle at the given position and size.
    pub fn rectangle(&mut self, x: usize, y: usize, width: usize, height: usize)
        ensures
            final(self).name@ == "rect"@,
            pairs_view(final(self).attributes@) == pairs_set(
                pairs_set(
                    pairs_set(
                        pairs_set(pairs_view(old(self).attributes@), "x"@, dec_digits(x as nat)),
                        "y"@,
                        dec_digits(y as nat),
                    ),
                    "width"@,
                    dec_digits(width as nat),
                ),
                "height"@,
                dec_digits(height as nat),
            ),
    {
        self.name = String::from_str("rect");
        self.set_attribute(String::from_str("x"), crate::utils::fmt::dec_string(x));
        self.set_attribute(String::from_str("y"), crate::utils::fmt::dec_string(y));
        self.set_attribute(String::from_str("width"), crate::utils::fmt::dec_string(width));
        self.set_attribute(String::from_str("height"), crate::utils::fmt::dec_string(height));
    }

    /// Sets the fill colour.
    pub fn set_fill(&mut self, c: Color)
        requires
            color_in_range(c),
        ensures
            final(self).name == old(self).name,
            pairs_view(final(self).attributes@) == pairs_set(
                pairs_view(old(self).attributes@),
                "fill"@,
                color_rendered(c),
            ),
    {
        self.set_attribute(String::from_str("fill"), c.to_string());
    }

    /// Sets the stroke colour.
    pub fn set_stroke(&mut self, c: Color)
        requires
            color_in_range(c),
        ensures
            final(self).name == old(self).name,
            pairs_view(final(self).attributes@) == pairs_set(
                pairs_view(old(self).attributes@),
                "stroke"@,
                color_rendered(c),
            ),
    {
        self.set_attribute(String::from_str("stroke"), c.to_string());
    }

    /// The element as SVG text: `<name key="value" .../>`.
    pub fn to_string(&self) -> (r: String)
        ensures
            r@ == element_rendered(self.name@, pairs_view(self.attributes@)),
    {
        let ghost ps = pairs_view(self.attributes@);
        let mut s = String::from_str("<");
        s.append(self.name.as_str());
        let n = self.attributes.len();
        let mut i: usize = 0;
        proof {
            reveal_strlit("<");
            assert("<"@ =~= seq!['<']);
            assert(ps.take(0) =~= Seq::<(Seq<char>, Seq<char>)>::empty());
            assert(s@ =~= seq!['<'] + self.name@ + attrs_rendered(ps.take(0)));
        }
        while i < n
            invariant
                i <= n,
                n == self.attributes@.len(),
                ps == pairs_view(self.attributes@),
                s@ == seq!['<'] + self.name@ + attrs_rendered(ps.take(i as int)),
            decreases n - i,
        {
            let ghost spre = s@;
            s.append(" ");
            s.append(self.attributes[i].0.as_str());
            s.append("=\"");
            s.append(self.attributes[i].1.as_str());
            s.append("\"");
            proof {
                reveal_strlit(" ");
                reveal_strlit("=\"");
                reveal_strlit("\"");
                assert(" "@ =~= seq![' ']);
                assert("=\""@ =~= seq!['=', '"']);
                assert("\""@ =~= seq!['"']);
                assert(ps.take(i + 1).drop_last() =~= ps.take(i as int));
                assert(ps.take(i + 1).last() == ps[i as int]);
                assert(attrs_rendered(ps.take(i + 1)) == attrs_rendered(ps.take(i as int))
                    + seq![' '] + ps[i as int].0 + seq!['=', '"'] + ps[i as int].1 + seq!['"']);
                assert(s@ =~= seq!['<'] + self.name@ + attrs_rendered(ps.take(i + 1)));
            }
            i += 1;
        }
        s.append("/>");
        proof {
            reveal_strlit("/>");
            assert("/>"@ =~= seq!['/', '>']);
            assert(ps.take(n as int) =~= ps);
            assert(s@ =~= element_rendered(self.name@, ps));
        }
        s
    }
}

} // verus!
