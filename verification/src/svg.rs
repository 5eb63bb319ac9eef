//! The SVG document builder: a root tag with attributes and child elements,
//! rendered as text.

use vstd::prelude::*;

verus! {

use crate::element::{
    Element,
    attrs_rendered,
    element_rendered,
    pairs_set,
    pairs_view,
    set_pair_exec,
};
use crate::utils::fmt::{dec_digits, push_dec};
use vstd::string::StringExecFns;

/// A width and height in user units.
#[derive(Debug, Clone, Copy, PartialEq, Eq, Structural)]
pub struct Dimension {
    pub width: usize,
    pub height: usize,
}

/// An SVG document: the root tag, its attributes, and its child elements.
pub struct Svg {
    pub name: String,
    pub attributes: Vec<(String, String)>,
    pub children: Vec<Element>,
}

/// The rendering of each child element, in order.
pub open spec fn children_rendered_each(cs: Seq<Element>) -> Seq<Seq<char>> {
    Seq::new(cs.len(), |i: int| element_rendered(cs[i].name@, pairs_view(cs[i].attributes@)))
}

/// The concatenation of a sequence of texts.
pub open spec fn texts_joined(ts: Seq<Seq<char>>) -> Seq<char>
    decreases ts.len(),
{
    if ts.len() == 0 {
        Seq::empty()
    } else {
        texts_joined(ts.drop_last()) + ts.last()
    }
}

/// The `viewBox` text `0 0 <width> <height>`.
pub open spec fn view_box_rendered(size: Dimension) -> Seq<char> {
    "0 0 "@ + dec_digits(size.width as nat) + " "@ + dec_digits(size.height as nat)
}

/// `<name ...>` then one group that shifts the grid by half a unit, the
/// children, and the closing tags.
pub open spec fn svg_rendered(
    name: Seq<char>,
    ps: Seq<(Seq<char>, Seq<char>)>,
    cs: Seq<Element>,
) -> Seq<char> {
    seq!['<'] + name + attrs_rendered(ps) + seq!['>']
        + "<g transform=\"matrix(1.0,0.0,0.0,1.0,0.5,0.5)\">"@ + texts_joined(
        children_rendered_each(cs),
    ) + "</g>"@ + "</"@ + name + seq!['>']
}

/// The attributes written by `set_size`: full-viewport width and height and
/// the `viewBox` of the given pixel size.
pub open spec fn sized_pairs(ps: Seq<(Seq<char>, Seq<char>)>, size: Dimension) -> Seq<
    (Seq<char>, Seq<char>),
> {
    pairs_set(
        pairs_set(pairs_set(ps, "width"@, "100%"@), "height"@, "100%"@),
        "viewBox"@,
        view_box_rendered(size),
    )
}

impl Svg {
    /// Sets one attribute of the root tag: an existing key keeps its place
    /// and receives the new value, a new key is appended.
    pub fn set_attribute(&mut self, key: String, value: String)
        ensures
            final(self).name == old(self).name,
            final(self).children == old(self).children,
            pairs_view(final(self).attributes@) == pairs_set(
                pairs_view(old(self).attributes@),
                key@,
                value@,
            ),
    {
        set_pair_exec(&mut self.attributes, key, value);
    }

    /// Looks an attribute up and discards the result; the document is left
    /// unchanged.
    pub fn get_attribute(&mut self, key: &str)
        ensures
            *final(self) == *old(self),
    {
    }

    /// Appends one child element.
    pub fn append_child(&mut self, value: Element)
        ensures
            final(self).name == old(self).name,
            final(self).attributes == old(self).attributes,
            final(self).children@ == old(self).children@.push(value),
    {
        self.children.push(value);
    }

    /// Makes the document fill its viewport and sets its `viewBox` to the
    /// given pixel size.
    pub fn set_size(&mut self, size: Dimension)
        ensures
            final(self).name == old(self).name,
            final(self).children == old(self).children,
            pairs_view(final(self).attributes@) == sized_pairs(
                pairs_view(old(self).attributes@),
                size,
            ),
    {
        self.set_attribute(String::from_str("width"), String::from_str("100%"));
        self.set_attribute(String::from_str("height"), String::from_str("100%"));
        let mut vb = String::from_str("0 0 ");
        push_dec(&mut vb, size.width);
        vb.append(" ");
        push_dec(&mut vb, size.height);
        proof {
            assert(vb@ =~= view_box_rendered(size));
        }
        self.set_attribute(String::from_str("viewBox"), vb);
    }

    /// The attributes written by `init` after `set_size`: the SVG version
    /// and namespace.
    pub open spec fn init_pairs(ps: Seq<(Seq<char>, Seq<char>)>, size: Dimension) -> Seq<
        (Seq<char>, Seq<char>),
    > {
        pairs_set(
            pairs_set(sized_pairs(ps, size), "version"@, "1.1"@),
            "xmlns"@,
            "http://www.w3.org/2000/svg"@,
        )
    }

    /// Starts an SVG document of the given size.
    pub fn init(&mut self, size: Dimension)
        ensures
            final(self).name@ == "svg"@,
            final(self).children == old(self).children,
            pairs_view(final(self).attributes@) == Svg::init_pairs(
                pairs_view(old(self).attributes@),
                size,
            ),
    {
        self.name = String::from_str("svg");
        self.set_size(size);
        self.set_attribute(String::from_str("version"), String::from_str("1.1"));
        self.set_attribute(
            String::from_str("xmlns"),
            String::from_str("http://www.w3.org/2000/svg"),
        );
    }

    /// The document as SVG text.
    pub fn to_string(&self) -> (r: String)
        ensures
            r@ == svg_rendered(self.name@, pairs_view(self.attributes@), self.children@),
    {
        let ghost ps = pairs_view(self.attributes@);
        let mut s = String::from_str("<");
        s.append(self.name.as_str());
        let n = self.attributes.len();
        let mut i: usize = 0;
        proof {
            reveal_strlit("<");
            assert("<"@ =~= seq!['<']);
            assert(ps.take(0) =~= Seq::<(Seq<char>, Seq<char>)>::empty());
            assert(s@ =~= seq!['<'] + self.name@ + attrs_rendered(ps.take(0)));
        }
        while i < n
            invariant
                i <= n,
                n == self.attributes@.len(),
                ps == pairs_view(self.attributes@),
                s@ == seq!['<'] + self.name@ + attrs_rendered(ps.take(i as int)),
            decreases n - i,
        {
            s.append(" ");
            s.append(self.attributes[i].0.as_str());
            s.append("=\"");
            s.append(self.attributes[i].1.as_str());
            s.append("\"");
            proof {
                reveal_strlit(" ");
                reveal_strlit("=\"");
                reveal_strlit("\"");
                assert(" "@ =~= seq![' ']);
                assert("=\""@ =~= seq!['=', '"']);
                assert("\""@ =~= seq!['"']);
                assert(ps.take(i + 1).drop_last() =~= ps.take(i as int));
                assert(ps.take(i + 1).last() == ps[i as int]);
                assert(s@ =~= seq!['<'] + self.name@ + attrs_rendered(ps.take(i + 1)));
            }
            i += 1;
        }
        s.append(">");
        s.append("<g transform=\"matrix(1.0,0.0,0.0,1.0,0.5,0.5)\">");
        let ghost cs = self.children@;
        let ghost shead = s@;
        let m = self.children.len();
        let mut j: usize = 0;
        proof {
            reveal_strlit(">");
            assert(">"@ =~= seq!['>']);
            assert(ps.take(n as int) =~= ps);
            assert(children_rendered_each(cs).take(0) =~= Seq::<Seq<char>>::empty());
            assert(s@ =~= shead + texts_joined(children_rendered_each(cs).take(0)));
        }
        while j < m
            invariant
                j <= m,
                m == self.children@.len(),
                cs == self.children@,
                s@ == shead + texts_joined(children_rendered_each(cs).take(j as int)),
            decreases m - j,
        {
            let child_text = self.children[j].to_string();
            s.append(child_text.as_str());
            proof {
                let each = children_rendered_each(cs);
                assert(each.take(j + 1).drop_last() =~= each.take(j as int));
                assert(each.take(j + 1).last() == each[j as int]);
                assert(each[j as int] == element_rendered(
                    cs[j as int].name@,
                    pairs_view(cs[j as int].attributes@),
                ));
                assert(s@ =~= shead + texts_joined(each.take(j + 1)));
            }
            j += 1;
        }
        s.append("</g>");
        s.append("</");
        s.append(self.name.as_str());
        s.append(">");
        proof {
            assert(children_rendered_each(cs).take(m as int) =~= children_rendered_each(cs));
            assert(s@ =~= svg_rendered(self.name@, ps, cs));
        }
        s
    }
}

} // verus!
