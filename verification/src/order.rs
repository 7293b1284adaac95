//! Drawing order: the pieces of a figure, the passes they are drawn in, and
//! the classes that order them within a pass.

use vstd::prelude::*;

use crate::model::TensorId;
use crate::registry::{value_of, word};
use crate::text::{chars_of, str_is};
use crate::value::{Attr, ValueView, attrs_view};

verus! {

/// A piece of the figure, drawn as one unit.
#[derive(Clone, Copy, Debug, PartialEq, Eq, Structural)]
pub enum Part {
    TensorShadow(TensorId),
    Tensor(TensorId),
    /// A bond or leg, by its position among the figure's lines.
    Line(usize),
    /// A line's arrowhead, drawn right after the line.
    Arrow(usize),
    /// In 3D, a plane.
    Plane(usize),
    /// A label, by its position among the figure's labels.
    Label(usize),
}

#[derive(Clone, Copy, Debug, PartialEq, Eq, PartialOrd, Ord)]
pub enum Pass {
    Background,
    Scene,
    Overlay,
}

#[derive(Clone, Copy, Debug, PartialEq, Eq, PartialOrd, Ord)]
pub enum Class {
    Bonds,
    Shadows,
    Tensors,
    Front,
}

/// Lines sit under the tensors unless their layer is `front`.
pub open spec fn line_class_of(attrs: Seq<(Seq<char>, ValueView)>) -> Class {
    if value_of(attrs, "layer"@) == Some(ValueView::Word("front"@)) {
        Class::Front
    } else {
        Class::Bonds
    }
}

/// The class of a bond or leg with these attributes.
pub fn line_class(attrs: &[Attr]) -> (r: Class)
    ensures
        r == line_class_of(attrs_view(attrs@)),
{
    proof {
        reveal_strlit("layer");
        reveal_strlit("front");
    }
    match word(attrs, "layer") {
        Some(w) => if str_is("front", chars_of(w).as_slice()) {
            Class::Front
        } else {
            Class::Bonds
        },
        None => Class::Bonds,
    }
}

/// Whether a tensor with these attributes casts a shadow: unless its
/// `shadow` is `off`.
pub fn casts_shadow(attrs: &[Attr]) -> (r: bool)
    ensures
        r == (value_of(attrs_view(attrs@), "shadow"@) != Some(ValueView::Word("off"@))),
{
    proof {
        reveal_strlit("shadow");
        reveal_strlit("off");
    }
    match word(attrs, "shadow") {
        Some(w) => !str_is("off", chars_of(w).as_slice()),
        None => true,
    }
}

} // verus!
