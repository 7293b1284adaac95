//! The vocabulary of a drawn figure: tensor shapes, line styles, tube caps,
//! and labels.

use vstd::prelude::*;

use crate::model::{Index, TensorId};
use crate::name::{Name, join, primes, push_ints, push_primes};
use crate::registry::{get, value_of, word};
use crate::text::{chars_of, int_text, nat_text, push_chars, push_nat, str_is, string_copy, string_of};
use crate::value::{Attr, Value, ValueView, attrs_view};

verus! {

#[derive(Clone, Copy, Debug, PartialEq, Eq, Structural)]
pub enum Shape {
    Rect,
    Orb,
    Triangle,
    Diamond,
    Dot,
    /// 3D solids.
    Sphere,
    Box,
    Prism,
    Octahedron,
}

/// The shape a word names.
pub open spec fn shape_named(w: Seq<char>) -> Option<Shape> {
    if w == "rect"@ {
        Some(Shape::Rect)
    } else if w == "orb"@ {
        Some(Shape::Orb)
    } else if w == "triangle"@ {
        Some(Shape::Triangle)
    } else if w == "diamond"@ {
        Some(Shape::Diamond)
    } else if w == "dot"@ {
        Some(Shape::Dot)
    } else if w == "sphere"@ {
        Some(Shape::Sphere)
    } else if w == "box"@ {
        Some(Shape::Box)
    } else if w == "prism"@ {
        Some(Shape::Prism)
    } else if w == "octahedron"@ {
        Some(Shape::Octahedron)
    } else {
        None
    }
}

/// The 3D solids.
pub open spec fn is_solid(s: Shape) -> bool {
    s == Shape::Sphere || s == Shape::Box || s == Shape::Prism || s == Shape::Octahedron
}

/// The 2D cross-section of a solid; a 2D shape itself.
pub open spec fn section_of(s: Shape) -> Shape {
    match s {
        Shape::Sphere => Shape::Orb,
        Shape::Box => Shape::Rect,
        Shape::Prism => Shape::Triangle,
        Shape::Octahedron => Shape::Diamond,
        _ => s,
    }
}

impl Shape {
    /// The shape a word names, if any.
    pub fn from_word(w: &str) -> (r: Option<Shape>)
        ensures
            r == shape_named(w@),
    {
        let c = chars_of(w);
        let c = c.as_slice();
        if str_is("rect", c) {
            Some(Shape::Rect)
        } else if str_is("orb", c) {
            Some(Shape::Orb)
        } else if str_is("triangle", c) {
            Some(Shape::Triangle)
        } else if str_is("diamond", c) {
            Some(Shape::Diamond)
        } else if str_is("dot", c) {
            Some(Shape::Dot)
        } else if str_is("sphere", c) {
            Some(Shape::Sphere)
        } else if str_is("box", c) {
            Some(Shape::Box)
        } else if str_is("prism", c) {
            Some(Shape::Prism)
        } else if str_is("octahedron", c) {
            Some(Shape::Octahedron)
        } else {
            None
        }
    }

    /// Whether the shape exists in 2D scenes (`dot` exists in both).
    pub fn is_2d(self) -> (r: bool)
        ensures
            r == !is_solid(self),
    {
        match self {
            Shape::Sphere | Shape::Box | Shape::Prism | Shape::Octahedron => false,
            _ => true,
        }
    }

    /// Whether the shape exists in 3D scenes.
    pub fn is_3d(self) -> (r: bool)
        ensures
            r == (is_solid(self) || self == Shape::Dot),
    {
        !self.is_2d() || self == Shape::Dot
    }

    /// The 2D shape a 3D solid's cross-section is, by which it is sized for
    /// its label; a 2D shape itself.
    pub fn section(self) -> (r: Shape)
        ensures
            r == section_of(self),
            !is_solid(r),
    {
        match self {
            Shape::Sphere => Shape::Orb,
            Shape::Box => Shape::Rect,
            Shape::Prism => Shape::Triangle,
            Shape::Octahedron => Shape::Diamond,
            s => s,
        }
    }

    /// Whether the shape is a circle, whose height follows its width.
    pub fn is_round(self) -> (r: bool)
        ensures
            r == (section_of(self) == Shape::Orb || section_of(self) == Shape::Dot),
    {
        match self.section() {
            Shape::Orb | Shape::Dot => true,
            _ => false,
        }
    }
}

#[derive(Clone, Copy, Debug, PartialEq, Eq, Structural)]
pub enum LineStyle {
    Line,
    Tube,
}

#[derive(Clone, Copy, Debug, PartialEq, Eq, Structural)]
pub enum LineKind {
    Bond,
    Leg,
}

/// How a tube ends.
#[derive(Clone, Copy, Debug, PartialEq, Eq, Structural)]
pub enum Cap {
    Round,
    Flat,
}

/// Who a label belongs to.
#[derive(Clone, Copy, Debug, PartialEq, Eq, Structural)]
pub enum LabelOwner {
    Tensor(TensorId),
    /// A bond or leg, by its position among the figure's lines.
    Line(usize),
}

/// A label's text, as the language writes it: TeX math with its dollars,
/// or plain text, which a backend prints literally.
#[derive(Clone, Debug, PartialEq, Eq)]
pub enum LabelText {
    Math(String),
    Plain(String),
}

impl LabelText {
    /// The text itself.
    pub fn as_str(&self) -> (r: &str)
        ensures
            r@ == match self {
                LabelText::Math(s) => s@,
                LabelText::Plain(s) => s@,
            },
    {
        match self {
            LabelText::Math(s) | LabelText::Plain(s) => s.as_str(),
        }
    }
}

/// A name set in math mode: the base with underscores escaped, the
/// subscripts as a subscript list, and the primes, as `$A_{1,2}'$`.
pub open spec fn math_name_text(base: Seq<char>, subscripts: Seq<i64>, prime: nat) -> Seq<char> {
    seq!['$'] + escape_underscores(base) + (if subscripts.len() == 0 {
        Seq::empty()
    } else {
        seq!['_', '{'] + join(subscripts, |i: i64| int_text(i as int), seq![',']) + seq!['}']
    }) + primes(prime) + seq!['$']
}

/// `_` written `\_`.
pub open spec fn escape_underscores(s: Seq<char>) -> Seq<char>
    decreases s.len(),
{
    if s.len() == 0 {
        Seq::empty()
    } else {
        escape_underscores(s.drop_last()) + if s.last() == '_' {
            seq!['\\', '_']
        } else {
            seq![s.last()]
        }
    }
}

/// A name set in math mode, as `$A_{1,2}'$`.
pub fn math_name(base: &str, subscripts: &[i64], prime: u32) -> (s: String)
    ensures
        s@ == math_name_text(base@, subscripts@, prime as nat),
{
    let b = chars_of(base);
    let mut out: Vec<char> = Vec::new();
    out.push('$');
    let ghost start = out@;
    let mut k: usize = 0;
    while k < b.len()
        invariant
            k <= b@.len(),
            b@ == base@,
            out@ == start + escape_underscores(b@.take(k as int)),
        decreases b@.len() - k,
    {
        assert(b@.take(k + 1).drop_last() =~= b@.take(k as int));
        if b[k] == '_' {
            out.push('\\');
            out.push('_');
        } else {
            out.push(b[k]);
        }
        k = k + 1;
    }
    assert(b@.take(b@.len() as int) =~= b@);
    if subscripts.len() > 0 {
        out.push('_');
        out.push('{');
        push_ints(&mut out, subscripts);
        out.push('}');
    }
    push_primes(&mut out, prime);
    out.push('$');
    string_of(out.as_slice())
}

/// The label of a tensor: the `label` attribute, unless it is `none`; else
/// nothing for a dot, and the name in math for any other shape.
pub open spec fn tensor_label_of(label: Option<ValueView>, shape: Shape, name: Name) -> Option<
    (bool, Seq<char>),
> {
    match label {
        Some(ValueView::Word(w)) if w == "none"@ => None,
        Some(ValueView::Math(s)) => Some((true, s)),
        Some(ValueView::Str(s)) => Some((false, s)),
        _ => if shape == Shape::Dot {
            None
        } else {
            Some((true, math_name_text(name.base@, name.subscripts@, 0)))
        },
    }
}

/// A label text as (is math, text).
pub open spec fn label_view(t: LabelText) -> (bool, Seq<char>) {
    match t {
        LabelText::Math(s) => (true, s@),
        LabelText::Plain(s) => (false, s@),
    }
}

/// The label of a tensor with this style and shape.
pub fn tensor_label(style: &[Attr], shape: Shape, name: &Name) -> (r: Option<LabelText>)
    ensures
        match tensor_label_of(value_of(attrs_view(style@), "label"@), shape, *name) {
            Some(v) => r matches Some(t) && label_view(t) == v,
            None => r is None,
        },
{
    proof {
        reveal_strlit("label");
        reveal_strlit("none");
    }
    match get(style, "label") {
        Some(Value::Word(w)) if str_is("none", chars_of(w.as_str()).as_slice()) => None,
        Some(Value::Math(s)) => Some(LabelText::Math(string_copy(s))),
        Some(Value::Str(s)) => Some(LabelText::Plain(string_copy(s))),
        _ => if shape == Shape::Dot {
            None
        } else {
            Some(LabelText::Math(math_name(name.base.as_str(), name.subscripts.as_slice(), 0)))
        },
    }
}

/// The label of a bond or leg: text as given; `dim` gives the dimension
/// (`?` when unknown), `name` the index's name in math; another word gives
/// the dimension with the index's primes.
pub open spec fn line_label_of(label: Option<ValueView>, index: Index) -> Option<(bool, Seq<char>)> {
    let dim = match index.dim {
        Some(d) => nat_text(d as nat),
        None => seq!['?'],
    };
    match label {
        Some(ValueView::Math(s)) => Some((true, s)),
        Some(ValueView::Str(s)) => Some((false, s)),
        Some(ValueView::Word(w)) => if w == "dim"@ {
            Some((false, dim))
        } else if w == "name"@ {
            Some((true, math_name_text(index.name.base@, index.name.subscripts@, index.prime as nat)))
        } else if index.prime == 0 {
            Some((false, dim))
        } else {
            Some((true, seq!['$'] + dim + primes(index.prime as nat) + seq!['$']))
        },
        _ => None,
    }
}

/// The label of a bond or leg with this style, on this index.
pub fn line_label(attrs: &[Attr], index: &Index) -> (r: Option<LabelText>)
    ensures
        match line_label_of(value_of(attrs_view(attrs@), "label"@), *index) {
            Some(v) => r matches Some(t) && label_view(t) == v,
            None => r is None,
        },
{
    proof {
        reveal_strlit("label");
        reveal_strlit("dim");
        reveal_strlit("name");
    }
    let mut dim: Vec<char> = Vec::new();
    match index.dim {
        Some(d) => push_nat(&mut dim, d),
        None => dim.push('?'),
    }
    match get(attrs, "label") {
        Some(Value::Math(s)) => Some(LabelText::Math(string_copy(s))),
        Some(Value::Str(s)) => Some(LabelText::Plain(string_copy(s))),
        Some(Value::Word(w)) => {
            let c = chars_of(w.as_str());
            if str_is("dim", c.as_slice()) {
                Some(LabelText::Plain(string_of(dim.as_slice())))
            } else if str_is("name", c.as_slice()) {
                Some(
                    LabelText::Math(
                        math_name(index.name.base.as_str(), index.name.subscripts.as_slice(), index.prime),
                    ),
                )
            } else if index.prime == 0 {
                Some(LabelText::Plain(string_of(dim.as_slice())))
            } else {
                let mut m: Vec<char> = Vec::new();
                m.push('$');
                push_chars(&mut m, dim.as_slice());
                push_primes(&mut m, index.prime);
                m.push('$');
                Some(LabelText::Math(string_of(m.as_slice())))
            }
        },
        _ => None,
    }
}

/// Lines are tubes when their style says so.
pub open spec fn line_style_of(attrs: Seq<(Seq<char>, ValueView)>) -> LineStyle {
    if value_of(attrs, "style"@) == Some(ValueView::Word("tube"@)) {
        LineStyle::Tube
    } else {
        LineStyle::Line
    }
}

/// The style of a line with these attributes.
pub fn line_style(attrs: &[Attr]) -> (r: LineStyle)
    ensures
        r == line_style_of(attrs_view(attrs@)),
{
    proof {
        reveal_strlit("style");
        reveal_strlit("tube");
    }
    match word(attrs, "style") {
        Some(w) => if str_is("tube", chars_of(w).as_slice()) {
            LineStyle::Tube
        } else {
            LineStyle::Line
        },
        None => LineStyle::Line,
    }
}

/// The cap at the free end of a leg: flat when asked for, else round.
pub fn leg_cap(attrs: &[Attr]) -> (r: Cap)
    ensures
        r == if value_of(attrs_view(attrs@), "cap"@) == Some(ValueView::Word("flat"@)) {
            Cap::Flat
        } else {
            Cap::Round
        },
{
    proof {
        reveal_strlit("cap");
        reveal_strlit("flat");
    }
    match word(attrs, "cap") {
        Some(w) => if str_is("flat", chars_of(w).as_slice()) {
            Cap::Flat
        } else {
            Cap::Round
        },
        None => Cap::Round,
    }
}

} // verus!
