//! The attribute registry: every attribute's category, the objects it
//! applies to, and the type of its value.
//!
//! Rules are checked against the registry with [`validate`], and attributes
//! are read through the typed accessors at the end of this module.

use vstd::prelude::*;

use crate::error::{Error, error_new};
use crate::model::{Direction, Selector, is_direction_word};
use crate::name::{join, lemma_join_step};
use crate::number::{Number, at_least, at_most, number_wf};
use crate::text::{chars_of, push_chars, push_str, str_is, string_of};
use crate::value::{Attr, Value, ValueView, attrs_view, attrs_wf, key_pos, value_text, value_wf};

verus! {

#[derive(Clone, Copy, Debug, PartialEq, Eq, Structural)]
pub enum Category {
    Structure,
    Layout,
    Geometry,
    Appearance,
    Order,
}

#[derive(Clone, Copy, Debug, PartialEq, Eq, Structural)]
pub enum Target {
    Tensor,
    Bond,
    Leg,
    /// A translucent plane (3D).
    Plane,
}

/// A set of targets.
#[derive(Clone, Copy, Debug, PartialEq, Eq, Structural)]
pub struct Targets {
    pub tensor: bool,
    pub bond: bool,
    pub leg: bool,
    pub plane: bool,
}

pub open spec fn has_target(ts: Targets, t: Target) -> bool {
    match t {
        Target::Tensor => ts.tensor,
        Target::Bond => ts.bond,
        Target::Leg => ts.leg,
        Target::Plane => ts.plane,
    }
}

/// The choices of a word-valued attribute.
#[derive(Clone, Copy, Debug, PartialEq, Eq, Structural)]
pub enum WordSet {
    Shapes,
    OnOff,
    LineTube,
    RoundFlat,
    Crossing,
    Arrow,
    ArrowStyle,
    Layer,
    Placement,
    Side,
}

pub open spec fn choices(w: WordSet) -> Seq<Seq<char>> {
    match w {
        WordSet::Shapes => seq![
            "rect"@,
            "orb"@,
            "triangle"@,
            "diamond"@,
            "dot"@,
            "sphere"@,
            "box"@,
            "prism"@,
            "octahedron"@,
        ],
        WordSet::OnOff => seq!["on"@, "off"@],
        WordSet::LineTube => seq!["line"@, "tube"@],
        WordSet::RoundFlat => seq!["round"@, "flat"@],
        WordSet::Crossing => seq!["none"@, "hop"@],
        WordSet::Arrow => seq!["none"@, "forward"@, "backward"@],
        WordSet::ArrowStyle => seq!["head"@, "shaft"@, "beside"@, "cone"@],
        WordSet::Layer => seq!["back"@, "front"@],
        WordSet::Placement => seq!["on"@, "beside"@],
        WordSet::Side => seq!["auto"@, "left"@, "right"@],
    }
}

fn choice_list(w: WordSet) -> (v: Vec<Vec<char>>)
    ensures
        v@.map_values(|x: Vec<char>| x@) == choices(w),
{
    let words: Vec<&str> = match w {
        WordSet::Shapes => vec!["rect", "orb", "triangle", "diamond", "dot", "sphere", "box", "prism", "octahedron"],
        WordSet::OnOff => vec!["on", "off"],
        WordSet::LineTube => vec!["line", "tube"],
        WordSet::RoundFlat => vec!["round", "flat"],
        WordSet::Crossing => vec!["none", "hop"],
        WordSet::Arrow => vec!["none", "forward", "backward"],
        WordSet::ArrowStyle => vec!["head", "shaft", "beside", "cone"],
        WordSet::Layer => vec!["back", "front"],
        WordSet::Placement => vec!["on", "beside"],
        WordSet::Side => vec!["auto", "left", "right"],
    };
    let ghost expected = choices(w);
    assert(words@.map_values(|s: &str| s@) =~= expected);
    let mut v: Vec<Vec<char>> = Vec::new();
    let mut k: usize = 0;
    while k < words.len()
        invariant
            k <= words@.len(),
            words@.map_values(|s: &str| s@) == expected,
            v@.len() == k,
            forall|j: int| 0 <= j < k ==> #[trigger] v@[j]@ == words@[j]@,
        decreases words@.len() - k,
    {
        v.push(chars_of(words[k]));
        k = k + 1;
    }
    assert(v@.map_values(|x: Vec<char>| x@) =~= expected) by {
        assert forall|j: int| 0 <= j < v@.len() implies v@[j]@ == expected[j] by {
            assert(expected[j] == words@.map_values(|s: &str| s@)[j]);
        }
    }
    v
}

fn in_list(list: &Vec<Vec<char>>, w: &[char]) -> (r: bool)
    ensures
        r == list@.map_values(|x: Vec<char>| x@).contains(w@),
{
    let ghost lv = list@.map_values(|x: Vec<char>| x@);
    let mut k: usize = 0;
    while k < list.len()
        invariant
            k <= list@.len(),
            lv == list@.map_values(|x: Vec<char>| x@),
            forall|j: int| 0 <= j < k ==> lv[j] != w@,
        decreases list@.len() - k,
    {
        if crate::text::same_chars(list[k].as_slice(), w) {
            assert(lv[k as int] == w@);
            return true;
        }
        k = k + 1;
    }
    false
}

/// The type of an attribute's value.
#[derive(Clone, Copy, Debug, PartialEq, Eq, Structural)]
pub enum Kind {
    Number,
    /// A number between 0 and 1, inclusive.
    Fraction,
    /// A length; unitless values are layout units.
    Length,
    /// A length; unitless values are em.
    EmLength,
    Direction,
    Points,
    Point,
    Colour,
    /// A colour or `auto`.
    ColourOrAuto,
    /// Text, or a label generated from the index.
    LabelText,
    /// Text or `none`.
    TensorLabel,
    /// A backend font, such as a LaTeX font switch.
    Font,
    Word(WordSet),
    /// An angle, or three angles `(rx, ry, rz)` for 3D.
    Rotation,
}

/// The registry's entry for a key: the targets it applies to, its category,
/// and its kind.
pub open spec fn entry(key: Seq<char>) -> Option<(Targets, Category, Kind)> {
    if key == "shape"@ {
        Some((Targets { tensor: true, bond: false, leg: false, plane: false }, Category::Geometry, Kind::Word(WordSet::Shapes)))
    } else if key == "width"@ {
        Some((Targets { tensor: true, bond: true, leg: true, plane: true }, Category::Geometry, Kind::Length))
    } else if key == "height"@ {
        Some((Targets { tensor: true, bond: false, leg: false, plane: true }, Category::Geometry, Kind::Length))
    } else if key == "corner-radius"@ {
        Some((Targets { tensor: true, bond: false, leg: false, plane: true }, Category::Geometry, Kind::Length))
    } else if key == "rotate"@ {
        Some((Targets { tensor: true, bond: false, leg: false, plane: true }, Category::Layout, Kind::Rotation))
    } else if key == "padding"@ {
        Some((Targets { tensor: false, bond: false, leg: false, plane: true }, Category::Geometry, Kind::Length))
    } else if key == "thickness"@ {
        Some((Targets { tensor: true, bond: false, leg: false, plane: false }, Category::Geometry, Kind::Length))
    } else if key == "color"@ {
        Some((Targets { tensor: true, bond: true, leg: true, plane: true }, Category::Appearance, Kind::Colour))
    } else if key == "label"@ {
        Some((Targets { tensor: true, bond: false, leg: false, plane: false }, Category::Appearance, Kind::TensorLabel))
    } else if key == "label-padding"@ {
        Some((Targets { tensor: true, bond: false, leg: false, plane: false }, Category::Geometry, Kind::EmLength))
    } else if key == "highlight-size"@ {
        Some((Targets { tensor: true, bond: false, leg: false, plane: false }, Category::Appearance, Kind::Number))
    } else if key == "highlight-inset"@ {
        Some((Targets { tensor: true, bond: false, leg: false, plane: false }, Category::Appearance, Kind::Length))
    } else if key == "shadow"@ {
        Some((Targets { tensor: true, bond: false, leg: false, plane: false }, Category::Appearance, Kind::Word(WordSet::OnOff)))
    } else if key == "opacity"@ {
        Some((Targets { tensor: true, bond: true, leg: true, plane: true }, Category::Appearance, Kind::Fraction))
    } else if key == "z"@ {
        Some((Targets { tensor: true, bond: true, leg: false, plane: true }, Category::Order, Kind::Number))
    } else if key == "label-color"@ {
        Some((Targets { tensor: true, bond: true, leg: true, plane: false }, Category::Appearance, Kind::ColourOrAuto))
    } else if key == "label-font"@ {
        Some((Targets { tensor: true, bond: true, leg: true, plane: false }, Category::Appearance, Kind::Font))
    } else if key == "style"@ {
        Some((Targets { tensor: false, bond: true, leg: true, plane: false }, Category::Geometry, Kind::Word(WordSet::LineTube)))
    } else if key == "via"@ {
        Some((Targets { tensor: false, bond: true, leg: false, plane: false }, Category::Layout, Kind::Points))
    } else if key == "bend-radius"@ {
        Some((Targets { tensor: false, bond: true, leg: true, plane: false }, Category::Geometry, Kind::Length))
    } else if key == "stub"@ {
        Some((Targets { tensor: false, bond: true, leg: false, plane: false }, Category::Geometry, Kind::Length))
    } else if key == "cap"@ {
        Some((Targets { tensor: false, bond: true, leg: true, plane: false }, Category::Geometry, Kind::Word(WordSet::RoundFlat)))
    } else if key == "parallel-gap"@ {
        Some((Targets { tensor: false, bond: true, leg: false, plane: false }, Category::Geometry, Kind::Length))
    } else if key == "loop-size"@ {
        Some((Targets { tensor: false, bond: true, leg: false, plane: false }, Category::Geometry, Kind::Length))
    } else if key == "crossing"@ {
        Some((Targets { tensor: false, bond: true, leg: false, plane: false }, Category::Geometry, Kind::Word(WordSet::Crossing)))
    } else if key == "hop-radius"@ {
        Some((Targets { tensor: false, bond: true, leg: false, plane: false }, Category::Geometry, Kind::Length))
    } else if key == "arrow"@ {
        Some((Targets { tensor: false, bond: true, leg: true, plane: false }, Category::Appearance, Kind::Word(WordSet::Arrow)))
    } else if key == "arrow-pos"@ {
        Some((Targets { tensor: false, bond: true, leg: true, plane: false }, Category::Geometry, Kind::Fraction))
    } else if key == "arrow-style"@ {
        Some((Targets { tensor: false, bond: true, leg: true, plane: false }, Category::Geometry, Kind::Word(WordSet::ArrowStyle)))
    } else if key == "arrow-size"@ {
        Some((Targets { tensor: false, bond: true, leg: true, plane: false }, Category::Geometry, Kind::Number))
    } else if key == "layer"@ {
        Some((Targets { tensor: false, bond: true, leg: false, plane: false }, Category::Order, Kind::Word(WordSet::Layer)))
    } else if key == "leg-dir"@ {
        Some((Targets { tensor: false, bond: false, leg: true, plane: false }, Category::Layout, Kind::Direction))
    } else if key == "leg-length"@ {
        Some((Targets { tensor: false, bond: false, leg: true, plane: false }, Category::Geometry, Kind::Length))
    } else if key == "leg-offset"@ {
        Some((Targets { tensor: false, bond: false, leg: true, plane: false }, Category::Geometry, Kind::Length))
    } else if key == "label-pos"@ {
        Some((Targets { tensor: false, bond: true, leg: true, plane: false }, Category::Geometry, Kind::Fraction))
    } else if key == "label-placement"@ {
        Some((Targets { tensor: false, bond: true, leg: true, plane: false }, Category::Geometry, Kind::Word(WordSet::Placement)))
    } else if key == "label-side"@ {
        Some((Targets { tensor: false, bond: true, leg: true, plane: false }, Category::Geometry, Kind::Word(WordSet::Side)))
    } else if key == "label-along"@ {
        Some((Targets { tensor: false, bond: true, leg: true, plane: false }, Category::Geometry, Kind::Length))
    } else if key == "label-offset"@ {
        Some((Targets { tensor: false, bond: true, leg: true, plane: false }, Category::Geometry, Kind::Length))
    } else if key == "label-shift"@ {
        Some((Targets { tensor: false, bond: true, leg: true, plane: false }, Category::Geometry, Kind::Point))
    } else if key == "label-distance"@ {
        Some((Targets { tensor: false, bond: true, leg: true, plane: false }, Category::Geometry, Kind::EmLength))
    } else if key == "start-label"@ {
        Some((Targets { tensor: false, bond: true, leg: true, plane: false }, Category::Appearance, Kind::LabelText))
    } else if key == "end-label"@ {
        Some((Targets { tensor: false, bond: true, leg: false, plane: false }, Category::Appearance, Kind::LabelText))
    } else if key == "end-label-inset"@ {
        Some((Targets { tensor: false, bond: true, leg: true, plane: false }, Category::Geometry, Kind::EmLength))
    } else if key == "end-label-side"@ {
        Some((Targets { tensor: false, bond: true, leg: true, plane: false }, Category::Geometry, Kind::Word(WordSet::Side)))
    } else {
        None
    }
}

fn entry_of(key: &[char]) -> (r: Option<(Targets, Category, Kind)>)
    ensures
        r == entry(key@),
{
    if str_is("shape", key) {
        return Some((Targets { tensor: true, bond: false, leg: false, plane: false }, Category::Geometry, Kind::Word(WordSet::Shapes)));
    }
    if str_is("width", key) {
        return Some((Targets { tensor: true, bond: true, leg: true, plane: true }, Category::Geometry, Kind::Length));
    }
    if str_is("height", key) {
        return Some((Targets { tensor: true, bond: false, leg: false, plane: true }, Category::Geometry, Kind::Length));
    }
    if str_is("corner-radius", key) {
        return Some((Targets { tensor: true, bond: false, leg: false, plane: true }, Category::Geometry, Kind::Length));
    }
    if str_is("rotate", key) {
        return Some((Targets { tensor: true, bond: false, leg: false, plane: true }, Category::Layout, Kind::Rotation));
    }
    if str_is("padding", key) {
        return Some((Targets { tensor: false, bond: false, leg: false, plane: true }, Category::Geometry, Kind::Length));
    }
    if str_is("thickness", key) {
        return Some((Targets { tensor: true, bond: false, leg: false, plane: false }, Category::Geometry, Kind::Length));
    }
    if str_is("color", key) {
        return Some((Targets { tensor: true, bond: true, leg: true, plane: true }, Category::Appearance, Kind::Colour));
    }
    if str_is("label", key) {
        return Some((Targets { tensor: true, bond: false, leg: false, plane: false }, Category::Appearance, Kind::TensorLabel));
    }
    if str_is("label-padding", key) {
        return Some((Targets { tensor: true, bond: false, leg: false, plane: false }, Category::Geometry, Kind::EmLength));
    }
    if str_is("highlight-size", key) {
        return Some((Targets { tensor: true, bond: false, leg: false, plane: false }, Category::Appearance, Kind::Number));
    }
    if str_is("highlight-inset", key) {
        return Some((Targets { tensor: true, bond: false, leg: false, plane: false }, Category::Appearance, Kind::Length));
    }
    if str_is("shadow", key) {
        return Some((Targets { tensor: true, bond: false, leg: false, plane: false }, Category::Appearance, Kind::Word(WordSet::OnOff)));
    }
    if str_is("opacity", key) {
        return Some((Targets { tensor: true, bond: true, leg: true, plane: true }, Category::Appearance, Kind::Fraction));
    }
    if str_is("z", key) {
        return Some((Targets { tensor: true, bond: true, leg: false, plane: true }, Category::Order, Kind::Number));
    }
    if str_is("label-color", key) {
        return Some((Targets { tensor: true, bond: true, leg: true, plane: false }, Category::Appearance, Kind::ColourOrAuto));
    }
    if str_is("label-font", key) {
        return Some((Targets { tensor: true, bond: true, leg: true, plane: false }, Category::Appearance, Kind::Font));
    }
    if str_is("style", key) {
        return Some((Targets { tensor: false, bond: true, leg: true, plane: false }, Category::Geometry, Kind::Word(WordSet::LineTube)));
    }
    if str_is("via", key) {
        return Some((Targets { tensor: false, bond: true, leg: false, plane: false }, Category::Layout, Kind::Points));
    }
    if str_is("bend-radius", key) {
        return Some((Targets { tensor: false, bond: true, leg: true, plane: false }, Category::Geometry, Kind::Length));
    }
    if str_is("stub", key) {
        return Some((Targets { tensor: false, bond: true, leg: false, plane: false }, Category::Geometry, Kind::Length));
    }
    if str_is("cap", key) {
        return Some((Targets { tensor: false, bond: true, leg: true, plane: false }, Category::Geometry, Kind::Word(WordSet::RoundFlat)));
    }
    if str_is("parallel-gap", key) {
        return Some((Targets { tensor: false, bond: true, leg: false, plane: false }, Category::Geometry, Kind::Length));
    }
    if str_is("loop-size", key) {
        return Some((Targets { tensor: false, bond: true, leg: false, plane: false }, Category::Geometry, Kind::Length));
    }
    if str_is("crossing", key) {
        return Some((Targets { tensor: false, bond: true, leg: false, plane: false }, Category::Geometry, Kind::Word(WordSet::Crossing)));
    }
    if str_is("hop-radius", key) {
        return Some((Targets { tensor: false, bond: true, leg: false, plane: false }, Category::Geometry, Kind::Length));
    }
    if str_is("arrow", key) {
        return Some((Targets { tensor: false, bond: true, leg: true, plane: false }, Category::Appearance, Kind::Word(WordSet::Arrow)));
    }
    if str_is("arrow-pos", key) {
        return Some((Targets { tensor: false, bond: true, leg: true, plane: false }, Category::Geometry, Kind::Fraction));
    }
    if str_is("arrow-style", key) {
        return Some((Targets { tensor: false, bond: true, leg: true, plane: false }, Category::Geometry, Kind::Word(WordSet::ArrowStyle)));
    }
    if str_is("arrow-size", key) {
        return Some((Targets { tensor: false, bond: true, leg: true, plane: false }, Category::Geometry, Kind::Number));
    }
    if str_is("layer", key) {
        return Some((Targets { tensor: false, bond: true, leg: false, plane: false }, Category::Order, Kind::Word(WordSet::Layer)));
    }
    if str_is("leg-dir", key) {
        return Some((Targets { tensor: false, bond: false, leg: true, plane: false }, Category::Layout, Kind::Direction));
    }
    if str_is("leg-length", key) {
        return Some((Targets { tensor: false, bond: false, leg: true, plane: false }, Category::Geometry, Kind::Length));
    }
    if str_is("leg-offset", key) {
        return Some((Targets { tensor: false, bond: false, leg: true, plane: false }, Category::Geometry, Kind::Length));
    }
    if str_is("label-pos", key) {
        return Some((Targets { tensor: false, bond: true, leg: true, plane: false }, Category::Geometry, Kind::Fraction));
    }
    if str_is("label-placement", key) {
        return Some((Targets { tensor: false, bond: true, leg: true, plane: false }, Category::Geometry, Kind::Word(WordSet::Placement)));
    }
    if str_is("label-side", key) {
        return Some((Targets { tensor: false, bond: true, leg: true, plane: false }, Category::Geometry, Kind::Word(WordSet::Side)));
    }
    if str_is("label-along", key) {
        return Some((Targets { tensor: false, bond: true, leg: true, plane: false }, Category::Geometry, Kind::Length));
    }
    if str_is("label-offset", key) {
        return Some((Targets { tensor: false, bond: true, leg: true, plane: false }, Category::Geometry, Kind::Length));
    }
    if str_is("label-shift", key) {
        return Some((Targets { tensor: false, bond: true, leg: true, plane: false }, Category::Geometry, Kind::Point));
    }
    if str_is("label-distance", key) {
        return Some((Targets { tensor: false, bond: true, leg: true, plane: false }, Category::Geometry, Kind::EmLength));
    }
    if str_is("start-label", key) {
        return Some((Targets { tensor: false, bond: true, leg: true, plane: false }, Category::Appearance, Kind::LabelText));
    }
    if str_is("end-label", key) {
        return Some((Targets { tensor: false, bond: true, leg: false, plane: false }, Category::Appearance, Kind::LabelText));
    }
    if str_is("end-label-inset", key) {
        return Some((Targets { tensor: false, bond: true, leg: true, plane: false }, Category::Geometry, Kind::EmLength));
    }
    if str_is("end-label-side", key) {
        return Some((Targets { tensor: false, bond: true, leg: true, plane: false }, Category::Geometry, Kind::Word(WordSet::Side)));
    }
    None
}

/// The registry's category and kind of an attribute on a target.  The same
/// key names a bond label and a tensor label; bonds and legs accept the
/// generated forms too.
pub open spec fn spec_for(key: Seq<char>, target: Target) -> Option<(Category, Kind)> {
    if key == "label"@ && target != Target::Tensor {
        Some((Category::Appearance, Kind::LabelText))
    } else {
        match entry(key) {
            Some((ts, c, k)) => if has_target(ts, target) {
                Some((c, k))
            } else {
                None
            },
            None => None,
        }
    }
}

/// The category and kind of an attribute on a target, if the registry
/// knows it.
pub fn spec(key: &[char], target: Target) -> (r: Option<(Category, Kind)>)
    ensures
        r == spec_for(key@, target),
{
    if str_is("label", key) && target != Target::Tensor {
        return Some((Category::Appearance, Kind::LabelText));
    }
    match entry_of(key) {
        Some((ts, c, k)) => {
            let hit = match target {
                Target::Tensor => ts.tensor,
                Target::Bond => ts.bond,
                Target::Leg => ts.leg,
                Target::Plane => ts.plane,
            };
            if hit {
                Some((c, k))
            } else {
                None
            }
        },
        None => None,
    }
}

/// The category of an attribute on a target, if the registry knows it.
pub fn category(key: &str, target: Target) -> (r: Option<Category>)
    ensures
        r == match spec_for(key@, target) {
            Some((c, _)) => Some(c),
            None => None,
        },
{
    let k = chars_of(key);
    match spec(k.as_slice(), target) {
        Some((c, _)) => Some(c),
        None => None,
    }
}

// ---- Flags -------------------------------------------------------------------

/// What a shorthand flag stands for: `tube`, `line`, and `hop`.
pub open spec fn flag_meaning(key: Seq<char>) -> Option<(Seq<char>, Seq<char>)> {
    if key == "tube"@ {
        Some(("style"@, "tube"@))
    } else if key == "line"@ {
        Some(("style"@, "line"@))
    } else if key == "hop"@ {
        Some(("crossing"@, "hop"@))
    } else {
        None
    }
}

/// The attributes with shorthand flags replaced, or the first flag that
/// stands for nothing.
pub open spec fn expanded(a: Seq<(Seq<char>, ValueView)>) -> Result<Seq<(Seq<char>, ValueView)>, Seq<char>>
    decreases a.len(),
{
    if a.len() == 0 {
        Ok(Seq::empty())
    } else {
        match expanded(a.drop_last()) {
            Err(m) => Err(m),
            Ok(p) => {
                let x = a.last();
                match x.1 {
                    ValueView::Flag => match flag_meaning(x.0) {
                        Some((k, v)) => Ok(p.push((k, ValueView::Word(v)))),
                        None => Err("`"@ + x.0 + "` needs a value"@),
                    },
                    _ => Ok(p.push(x)),
                }
            },
        }
    }
}

/// Replace shorthand flags by the attributes they stand for.
pub fn expand_flags(attrs: &[Attr]) -> (r: Result<Vec<Attr>, Error>)
    ensures
        match expanded(attrs_view(attrs@)) {
            Ok(a) => r matches Ok(v) && attrs_view(v@) == a,
            Err(m) => r matches Err(e) && e.pos.is_none() && e.message@ == m,
        },
{
    let ghost av = attrs_view(attrs@);
    let mut out: Vec<Attr> = Vec::new();
    let mut k: usize = 0;
    assert(av.take(0) =~= Seq::<(Seq<char>, ValueView)>::empty());
    assert(attrs_view(out@) =~= Seq::<(Seq<char>, ValueView)>::empty());
    while k < attrs.len()
        invariant
            k <= attrs@.len(),
            av == attrs_view(attrs@),
            expanded(av.take(k as int)) == Ok::<Seq<(Seq<char>, ValueView)>, Seq<char>>(attrs_view(out@)),
        decreases attrs@.len() - k,
    {
        assert(av.take(k + 1).drop_last() =~= av.take(k as int));
        assert(av.take(k + 1).last() == attrs@[k as int]@);
        let ghost before = attrs_view(out@);
        let a = &attrs[k];
        match a.value {
            Value::Flag => {
                let key = chars_of(a.key.as_str());
                if str_is("tube", key.as_slice()) {
                    out.push(Attr::new(string_of(chars_of("style").as_slice()), Value::Word(string_of(chars_of("tube").as_slice()))));
                } else if str_is("line", key.as_slice()) {
                    out.push(Attr::new(string_of(chars_of("style").as_slice()), Value::Word(string_of(chars_of("line").as_slice()))));
                } else if str_is("hop", key.as_slice()) {
                    out.push(Attr::new(string_of(chars_of("crossing").as_slice()), Value::Word(string_of(chars_of("hop").as_slice()))));
                } else {
                    let mut m: Vec<char> = Vec::new();
                    push_str(&mut m, "`");
                    push_chars(&mut m, key.as_slice());
                    push_str(&mut m, "` needs a value");
                    proof {
                        lemma_expanded_err(av, k as int);
                    }
                    return Err(error_new(m.as_slice()));
                }
            },
            _ => {
                out.push(a.copy());
            },
        }
        assert(attrs_view(out@) =~= before.push(attrs_view(out@).last()));
        k = k + 1;
    }
    assert(av.take(attrs@.len() as int) =~= av);
    Ok(out)
}

proof fn lemma_expanded_err(a: Seq<(Seq<char>, ValueView)>, k: int)
    requires
        0 <= k < a.len(),
        expanded(a.take(k + 1)) is Err,
    ensures
        expanded(a) == expanded(a.take(k + 1)),
    decreases a.len() - k,
{
    if k + 1 < a.len() {
        assert(a.take(k + 2).drop_last() =~= a.take(k + 1));
        lemma_expanded_err(a, k + 1);
    } else {
        assert(a.take(k + 1) =~= a);
    }
}

// ---- Selectors ---------------------------------------------------------------

/// The targets a selector may pick.
pub open spec fn selector_targets(s: Selector) -> Targets {
    match s {
        Selector::Tensors | Selector::Tensor(_) => Targets { tensor: true, bond: false, leg: false, plane: false },
        Selector::Bonds => Targets { tensor: false, bond: true, leg: false, plane: false },
        Selector::Legs | Selector::OpenLegs | Selector::LegOf(..) | Selector::Slot(..) => Targets {
            tensor: false,
            bond: false,
            leg: true,
            plane: false,
        },
        Selector::Tag(_) | Selector::Index(_) => Targets { tensor: false, bond: true, leg: true, plane: false },
        Selector::Name(_) => Targets { tensor: true, bond: true, leg: true, plane: false },
    }
}

/// The targets a selector may pick.
pub fn targets(selector: &Selector) -> (r: Targets)
    ensures
        r == selector_targets(*selector),
{
    match selector {
        Selector::Tensors | Selector::Tensor(_) => Targets { tensor: true, bond: false, leg: false, plane: false },
        Selector::Bonds => Targets { tensor: false, bond: true, leg: false, plane: false },
        Selector::Legs | Selector::OpenLegs | Selector::LegOf(..) | Selector::Slot(..) => Targets {
            tensor: false,
            bond: false,
            leg: true,
            plane: false,
        },
        Selector::Tag(_) | Selector::Index(_) => Targets { tensor: false, bond: true, leg: true, plane: false },
        Selector::Name(_) => Targets { tensor: true, bond: true, leg: true, plane: false },
    }
}


// ---- Checking values ---------------------------------------------------------

/// The generated forms a bond or leg label may take.
pub open spec fn label_words() -> Seq<Seq<char>> {
    seq!["dim"@, "name"@, "dim+prime"@]
}

/// The axis words of a 3D direction.
pub open spec fn axis_words() -> Seq<Seq<char>> {
    seq!["+x"@, "-x"@, "+y"@, "-y"@, "+z"@, "-z"@]
}

/// Whether a value has the type an attribute of the kind asks for.
pub open spec fn fits(kind: Kind, v: ValueView) -> bool {
    match kind {
        Kind::Number => v is Number,
        Kind::Rotation => v is Number || (v matches ValueView::Points(p) && p.len() == 1 && p[0].len()
            == 3),
        Kind::Fraction => v matches ValueView::Number(x) && at_least(x, 0) && at_most(x, 1),
        Kind::Length | Kind::EmLength => v is Number || v is Length,
        Kind::Direction => v is Number || (v matches ValueView::Word(w) && (is_direction_word(w)
            || axis_words().contains(w))) || (v matches ValueView::Points(p) && p.len() == 1),
        Kind::Point => v matches ValueView::Points(p) && p.len() == 1,
        Kind::Points => v is Points,
        Kind::Colour | Kind::ColourOrAuto | Kind::Font => v is Word || v is Str,
        Kind::LabelText => v is Math || v is Str || (v matches ValueView::Word(w)
            && label_words().contains(w)),
        Kind::TensorLabel => v is Math || v is Str || (v matches ValueView::Word(w) && w == "none"@),
        Kind::Word(c) => v matches ValueView::Word(w) && choices(c).contains(w),
    }
}

/// What a kind asks for, in words.
pub open spec fn kind_text(kind: Kind) -> Seq<char> {
    match kind {
        Kind::Number => "a number"@,
        Kind::Fraction => "a number between 0 and 1"@,
        Kind::Length | Kind::EmLength => "a length"@,
        Kind::Rotation => "an angle or three angles (rx, ry, rz)"@,
        Kind::Direction => "a direction"@,
        Kind::Points => "points"@,
        Kind::Point => "a point"@,
        Kind::Colour => "a colour"@,
        Kind::ColourOrAuto => "a colour or `auto`"@,
        Kind::LabelText => "text, `dim`, `name`, or `dim+prime`"@,
        Kind::TensorLabel => "text or `none`"@,
        Kind::Font => "a font"@,
        Kind::Word(c) => "one of "@ + join(choices(c), |w: Seq<char>| w, ", "@),
    }
}

fn push_choices(out: &mut Vec<char>, w: WordSet)
    ensures
        final(out)@ == old(out)@ + join(choices(w), |x: Seq<char>| x, ", "@),
{
    let list = choice_list(w);
    let ghost cs = choices(w);
    let ghost f = |x: Seq<char>| x;
    let ghost start = out@;
    let mut k: usize = 0;
    while k < list.len()
        invariant
            k <= list@.len(),
            list@.map_values(|x: Vec<char>| x@) == cs,
            f == (|x: Seq<char>| x),
            out@ == start + join(cs.take(k as int), f, ", "@),
        decreases list@.len() - k,
    {
        proof {
            lemma_join_step(cs, f, ", "@, k as int);
            assert(cs[k as int] == list@[k as int]@);
        }
        if k > 0 {
            push_str(out, ", ");
        }
        push_chars(out, list[k].as_slice());
        k = k + 1;
    }
    assert(cs.take(list@.len() as int) =~= cs);
}

/// What a kind asks for, in words.
pub fn describe(kind: Kind) -> (s: String)
    ensures
        s@ == kind_text(kind),
{
    let mut out: Vec<char> = Vec::new();
    match kind {
        Kind::Number => push_str(&mut out, "a number"),
        Kind::Fraction => push_str(&mut out, "a number between 0 and 1"),
        Kind::Length | Kind::EmLength => push_str(&mut out, "a length"),
        Kind::Rotation => push_str(&mut out, "an angle or three angles (rx, ry, rz)"),
        Kind::Direction => push_str(&mut out, "a direction"),
        Kind::Points => push_str(&mut out, "points"),
        Kind::Point => push_str(&mut out, "a point"),
        Kind::Colour => push_str(&mut out, "a colour"),
        Kind::ColourOrAuto => push_str(&mut out, "a colour or `auto`"),
        Kind::LabelText => push_str(&mut out, "text, `dim`, `name`, or `dim+prime`"),
        Kind::TensorLabel => push_str(&mut out, "text or `none`"),
        Kind::Font => push_str(&mut out, "a font"),
        Kind::Word(c) => {
            push_str(&mut out, "one of ");
            push_choices(&mut out, c);
        },
    }
    string_of(out.as_slice())
}

fn in_words(list: Vec<&str>, w: &[char]) -> (r: bool)
    ensures
        r == list@.map_values(|s: &str| s@).contains(w@),
{
    let ghost lv = list@.map_values(|s: &str| s@);
    let mut k: usize = 0;
    while k < list.len()
        invariant
            k <= list@.len(),
            lv == list@.map_values(|s: &str| s@),
            forall|j: int| 0 <= j < k ==> lv[j] != w@,
        decreases list@.len() - k,
    {
        if str_is(list[k], w) {
            assert(lv[k as int] == w@);
            return true;
        }
        k = k + 1;
    }
    false
}

fn is_axis(w: &[char]) -> (r: bool)
    ensures
        r == axis_words().contains(w@),
{
    let list = vec!["+x", "-x", "+y", "-y", "+z", "-z"];
    assert(list@.map_values(|s: &str| s@) =~= axis_words());
    in_words(list, w)
}

fn is_label_word(w: &[char]) -> (r: bool)
    ensures
        r == label_words().contains(w@),
{
    let list = vec!["dim", "name", "dim+prime"];
    assert(list@.map_values(|s: &str| s@) =~= label_words());
    in_words(list, w)
}

/// The direction a word names: one of the direction words, or an axis.
pub fn direction_word(w: &[char]) -> (r: Option<Direction>)
    ensures
        is_direction_word(w@) ==> (r matches Some(Direction::Word(s)) && s@ == w@),
        !is_direction_word(w@) && axis_words().contains(w@) ==> (r matches Some(Direction::Axis(s))
            && s@ == w@),
        !is_direction_word(w@) && !axis_words().contains(w@) ==> r is None,
{
    if crate::model::direction_word_known(w) {
        Some(Direction::Word(string_of(w)))
    } else if is_axis(w) {
        Some(Direction::Axis(string_of(w)))
    } else {
        None
    }
}

fn fits_kind(kind: Kind, v: &Value) -> (r: bool)
    requires
        value_wf(v@),
    ensures
        r == fits(kind, v@),
{
    match kind {
        Kind::Number => match v {
            Value::Number(_) => true,
            _ => false,
        },
        Kind::Rotation => match v {
            Value::Number(_) => true,
            Value::Points(p) => {
                proof {
                    if p.len() == 1 {
                        assert(v@ matches ValueView::Points(q) && q[0] == p@[0]@);
                    }
                }
                p.len() == 1 && p[0].len() == 3
            },
            _ => false,
        },
        Kind::Fraction => match v {
            Value::Number(x) => x.ge_int(0) && x.le_int(1),
            _ => false,
        },
        Kind::Length | Kind::EmLength => match v {
            Value::Number(_) | Value::Length(..) => true,
            _ => false,
        },
        Kind::Direction => match v {
            Value::Number(_) => true,
            Value::Word(w) => {
                let c = chars_of(w.as_str());
                crate::model::direction_word_known(c.as_slice()) || is_axis(c.as_slice())
            },
            Value::Points(p) => p.len() == 1,
            _ => false,
        },
        Kind::Point => match v {
            Value::Points(p) => p.len() == 1,
            _ => false,
        },
        Kind::Points => match v {
            Value::Points(_) => true,
            _ => false,
        },
        Kind::Colour | Kind::ColourOrAuto | Kind::Font => match v {
            Value::Word(_) | Value::Str(_) => true,
            _ => false,
        },
        Kind::LabelText => match v {
            Value::Math(_) | Value::Str(_) => true,
            Value::Word(w) => {
                let c = chars_of(w.as_str());
                is_label_word(c.as_slice())
            },
            _ => false,
        },
        Kind::TensorLabel => match v {
            Value::Math(_) | Value::Str(_) => true,
            Value::Word(w) => {
                let c = chars_of(w.as_str());
                str_is("none", c.as_slice())
            },
            _ => false,
        },
        Kind::Word(ws) => match v {
            Value::Word(w) => {
                let c = chars_of(w.as_str());
                let list = choice_list(ws);
                in_list(&list, c.as_slice())
            },
            _ => false,
        },
    }
}

/// The message for a value that does not fit a kind.
pub open spec fn mismatch_text(kind: Kind, v: ValueView) -> Seq<char> {
    "expected "@ + kind_text(kind) + ", found `"@ + value_text(v) + "`"@
}

/// Check a value against a kind.
pub fn check(kind: Kind, v: &Value) -> (r: Result<(), String>)
    requires
        value_wf(v@),
    ensures
        r is Ok <==> fits(kind, v@),
        r matches Err(m) ==> m@ == mismatch_text(kind, v@),
{
    if fits_kind(kind, v) {
        Ok(())
    } else {
        let mut m: Vec<char> = Vec::new();
        push_str(&mut m, "expected ");
        let d = describe(kind);
        push_str(&mut m, d.as_str());
        push_str(&mut m, ", found `");
        v.push_text(&mut m);
        push_str(&mut m, "`");
        Err(string_of(m.as_slice()))
    }
}

// ---- Validation --------------------------------------------------------------

/// The kind of a registry answer.
pub open spec fn kind_in(o: Option<(Category, Kind)>) -> Kind {
    match o {
        Some((_, k)) => k,
        None => Kind::Number,
    }
}

/// The kinds a key has on the chosen targets, in the order tensor, bond,
/// leg, plane.
pub open spec fn kinds_for(key: Seq<char>, ts: Targets) -> Seq<Kind> {
    let k0: Seq<Kind> = Seq::empty();
    let k1 = if ts.tensor && spec_for(key, Target::Tensor) is Some {
        k0.push(kind_in(spec_for(key, Target::Tensor)))
    } else {
        k0
    };
    let k2 = if ts.bond && spec_for(key, Target::Bond) is Some {
        k1.push(kind_in(spec_for(key, Target::Bond)))
    } else {
        k1
    };
    let k3 = if ts.leg && spec_for(key, Target::Leg) is Some {
        k2.push(kind_in(spec_for(key, Target::Leg)))
    } else {
        k2
    };
    if ts.plane && spec_for(key, Target::Plane) is Some {
        k3.push(kind_in(spec_for(key, Target::Plane)))
    } else {
        k3
    }
}

/// Whether any target knows the key.
pub open spec fn known_somewhere(key: Seq<char>) -> bool {
    spec_for(key, Target::Tensor) is Some || spec_for(key, Target::Bond) is Some || spec_for(
        key,
        Target::Leg,
    ) is Some || spec_for(key, Target::Plane) is Some
}

/// What is wrong with one attribute on the chosen targets, if anything:
/// the key must apply to one of them, and the value must fit the key's kind
/// on at least one; otherwise the last kind is reported.
pub open spec fn attr_problem(ts: Targets, a: (Seq<char>, ValueView)) -> Option<Seq<char>> {
    let ks = kinds_for(a.0, ts);
    if ks.len() == 0 {
        if known_somewhere(a.0) {
            Some("`"@ + a.0 + "` does not apply here"@)
        } else {
            Some("unknown attribute `"@ + a.0 + "`"@)
        }
    } else if exists|i: int| 0 <= i < ks.len() && fits(#[trigger] ks[i], a.1) {
        None
    } else {
        Some("`"@ + a.0 + "`: "@ + mismatch_text(ks.last(), a.1))
    }
}

/// The problem of the first attribute that has one.
pub open spec fn first_problem(ts: Targets, a: Seq<(Seq<char>, ValueView)>) -> Option<Seq<char>>
    decreases a.len(),
{
    if a.len() == 0 {
        None
    } else {
        match first_problem(ts, a.drop_last()) {
            Some(m) => Some(m),
            None => attr_problem(ts, a.last()),
        }
    }
}

fn kinds_of(key: &[char], ts: Targets) -> (r: Vec<Kind>)
    ensures
        r@ == kinds_for(key@, ts),
{
    let mut r: Vec<Kind> = Vec::new();
    if ts.tensor {
        if let Some((_, k)) = spec(key, Target::Tensor) {
            r.push(k);
        }
    }
    if ts.bond {
        if let Some((_, k)) = spec(key, Target::Bond) {
            r.push(k);
        }
    }
    if ts.leg {
        if let Some((_, k)) = spec(key, Target::Leg) {
            r.push(k);
        }
    }
    if ts.plane {
        if let Some((_, k)) = spec(key, Target::Plane) {
            r.push(k);
        }
    }
    r
}

fn check_attr(ts: Targets, a: &Attr) -> (r: Option<String>)
    requires
        value_wf(a.value@),
    ensures
        r matches Some(m) ==> attr_problem(ts, a@) == Some(m@),
        r is None ==> attr_problem(ts, a@) is None,
{
    let key = chars_of(a.key.as_str());
    let ks = kinds_of(key.as_slice(), ts);
    if ks.len() == 0 {
        let elsewhere = spec(key.as_slice(), Target::Tensor).is_some() || spec(
            key.as_slice(),
            Target::Bond,
        ).is_some() || spec(key.as_slice(), Target::Leg).is_some() || spec(
            key.as_slice(),
            Target::Plane,
        ).is_some();
        let mut m: Vec<char> = Vec::new();
        if elsewhere {
            push_str(&mut m, "`");
            push_chars(&mut m, key.as_slice());
            push_str(&mut m, "` does not apply here");
        } else {
            push_str(&mut m, "unknown attribute `");
            push_chars(&mut m, key.as_slice());
            push_str(&mut m, "`");
        }
        return Some(string_of(m.as_slice()));
    }
    let mut k: usize = 0;
    while k < ks.len()
        invariant
            k <= ks@.len(),
            value_wf(a.value@),
            ks@ == kinds_for(a@.0, ts),
            key@ == a@.0,
            forall|j: int| 0 <= j < k ==> !fits(#[trigger] ks@[j], a.value@),
        decreases ks@.len() - k,
    {
        if fits_kind(ks[k], &a.value) {
            proof {
                let kk = kinds_for(a@.0, ts);
                assert(kk[k as int] == ks@[k as int]);
                assert(0 <= k < kk.len() && fits(kk[k as int], a@.1));
            }
            return None;
        }
        k = k + 1;
    }
    let last = ks[ks.len() - 1];
    match check(last, &a.value) {
        Ok(()) => None,
        Err(problem) => {
            let mut m: Vec<char> = Vec::new();
            push_str(&mut m, "`");
            push_chars(&mut m, key.as_slice());
            push_str(&mut m, "`: ");
            push_str(&mut m, problem.as_str());
            Some(string_of(m.as_slice()))
        },
    }
}

/// Check that every attribute applies to one of the chosen targets, and
/// that its value has the right type there.
pub fn validate(ts: Targets, attrs: &[Attr]) -> (r: Result<(), Error>)
    requires
        attrs_wf(attrs_view(attrs@)),
    ensures
        match first_problem(ts, attrs_view(attrs@)) {
            None => r is Ok,
            Some(m) => r matches Err(e) && e.pos is None && e.message@ == m,
        },
{
    let ghost av = attrs_view(attrs@);
    let mut k: usize = 0;
    assert(av.take(0) =~= Seq::<(Seq<char>, ValueView)>::empty());
    while k < attrs.len()
        invariant
            k <= attrs@.len(),
            av == attrs_view(attrs@),
            attrs_wf(av),
            first_problem(ts, av.take(k as int)) is None,
        decreases attrs@.len() - k,
    {
        assert(av.take(k + 1).drop_last() =~= av.take(k as int));
        assert(av[k as int] == attrs@[k as int]@);
        assert(value_wf(av[k as int].1));
        match check_attr(ts, &attrs[k]) {
            Some(m) => {
                proof {
                    lemma_first_problem_stays(ts, av, k + 1);
                }
                return Err(Error::new(m));
            },
            None => {},
        }
        k = k + 1;
    }
    assert(av.take(attrs@.len() as int) =~= av);
    Ok(())
}

proof fn lemma_first_problem_stays(ts: Targets, a: Seq<(Seq<char>, ValueView)>, k: int)
    requires
        0 < k <= a.len(),
        first_problem(ts, a.take(k)) is Some,
    ensures
        first_problem(ts, a) == first_problem(ts, a.take(k)),
    decreases a.len() - k,
{
    if k < a.len() {
        assert(a.take(k + 1).drop_last() =~= a.take(k));
        lemma_first_problem_stays(ts, a, k + 1);
    } else {
        assert(a.take(k) =~= a);
    }
}

// ---- Typed accessors ---------------------------------------------------------

/// The value of the first attribute with the key, if any.
pub open spec fn value_of(a: Seq<(Seq<char>, ValueView)>, key: Seq<char>) -> Option<ValueView> {
    let k = key_pos(a, key);
    if k >= 0 {
        Some(a[k].1)
    } else {
        None
    }
}

/// The value of the first attribute with the key, if any.
pub fn get<'a>(attrs: &'a [Attr], key: &str) -> (r: Option<&'a Value>)
    ensures
        match value_of(attrs_view(attrs@), key@) {
            Some(v) => r matches Some(x) && x@ == v,
            None => r is None,
        },
{
    let ghost av = attrs_view(attrs@);
    let k = chars_of(key);
    let mut i: usize = 0;
    while i < attrs.len()
        invariant
            i <= attrs@.len(),
            av == attrs_view(attrs@),
            k@ == key@,
            forall|j: int| 0 <= j < i ==> av[j].0 != key@,
        decreases attrs@.len() - i,
    {
        let here = chars_of(attrs[i].key.as_str());
        if crate::text::same_chars(here.as_slice(), k.as_slice()) {
            proof {
                lemma_key_pos_first(av, key@, i as int);
            }
            return Some(&attrs[i].value);
        }
        i = i + 1;
    }
    proof {
        lemma_key_pos_none(av, key@);
    }
    None
}

proof fn lemma_key_pos_first(a: Seq<(Seq<char>, ValueView)>, key: Seq<char>, i: int)
    requires
        0 <= i < a.len(),
        a[i].0 == key,
        forall|j: int| 0 <= j < i ==> a[j].0 != key,
    ensures
        key_pos(a, key) == i,
    decreases a.len(),
{
    if i < a.len() - 1 {
        lemma_key_pos_first(a.drop_last(), key, i);
    } else {
        lemma_key_pos_none(a.drop_last(), key);
    }
}

proof fn lemma_key_pos_none(a: Seq<(Seq<char>, ValueView)>, key: Seq<char>)
    requires
        forall|j: int| 0 <= j < a.len() ==> a[j].0 != key,
    ensures
        key_pos(a, key) == -1,
    decreases a.len(),
{
    if a.len() > 0 {
        lemma_key_pos_none(a.drop_last(), key);
    }
}

/// The word under the key, if it holds one.
pub fn word<'a>(attrs: &'a [Attr], key: &str) -> (r: Option<&'a str>)
    ensures
        match value_of(attrs_view(attrs@), key@) {
            Some(ValueView::Word(w)) => r matches Some(x) && x@ == w,
            _ => r is None,
        },
{
    match get(attrs, key) {
        Some(Value::Word(w)) => Some(w.as_str()),
        _ => None,
    }
}

/// The number under the key, if it holds one.
pub fn number(attrs: &[Attr], key: &str) -> (r: Option<Number>)
    ensures
        match value_of(attrs_view(attrs@), key@) {
            Some(ValueView::Number(x)) => r == Some(x),
            _ => r is None,
        },
{
    match get(attrs, key) {
        Some(Value::Number(x)) => Some(*x),
        _ => None,
    }
}

/// A rotation as angles about x, y, and z, in degrees; one angle is about z.
pub fn rotation(attrs: &[Attr], key: &str) -> (r: Option<[Number; 3]>)
    requires
        value_of(attrs_view(attrs@), key@) matches Some(ValueView::Points(p)) ==> p.len() >= 1
            && p[0].len() >= 3,
    ensures
        match value_of(attrs_view(attrs@), key@) {
            Some(ValueView::Number(x)) => r matches Some(a) && a@ == seq![
                Number { mantissa: 0, scale: 0 },
                Number { mantissa: 0, scale: 0 },
                x,
            ],
            Some(ValueView::Points(p)) => r matches Some(a) && a@ == seq![p[0][0], p[0][1], p[0][2]],
            _ => r is None,
        },
{
    match get(attrs, key) {
        Some(Value::Number(x)) => Some([Number::integer(0), Number::integer(0), *x]),
        Some(Value::Points(p)) => {
            proof {
                assert(p@.map_values(|q: Vec<Number>| q@)[0] == p@[0]@);
            }
            Some([p[0][0], p[0][1], p[0][2]])
        },
        _ => None,
    }
}

/// The direction under the key, if it holds one.
pub fn direction(attrs: &[Attr], key: &str) -> (r: Option<Direction>)
    ensures
        match value_of(attrs_view(attrs@), key@) {
            Some(ValueView::Number(a)) => r == Some(Direction::Angle(a)),
            Some(ValueView::Word(w)) => if is_direction_word(w) {
                r matches Some(Direction::Word(s)) && s@ == w
            } else if axis_words().contains(w) {
                r matches Some(Direction::Axis(s)) && s@ == w
            } else {
                r is None
            },
            Some(ValueView::Points(p)) => if p.len() == 1 {
                r matches Some(Direction::Vector(v)) && v@ == p[0]
            } else {
                r is None
            },
            _ => r is None,
        },
{
    match get(attrs, key) {
        Some(Value::Number(a)) => Some(Direction::Angle(*a)),
        Some(Value::Word(w)) => {
            let c = chars_of(w.as_str());
            direction_word(c.as_slice())
        },
        Some(Value::Points(p)) => {
            if p.len() == 1 {
                proof {
                    assert(p@.map_values(|q: Vec<Number>| q@)[0] == p@[0]@);
                }
                Some(Direction::Vector(crate::value::copy_numbers(&p[0])))
            } else {
                None
            }
        },
        _ => None,
    }
}

/// The points under the key, if it holds some.
pub fn points(attrs: &[Attr], key: &str) -> (r: Option<Vec<Vec<Number>>>)
    ensures
        match value_of(attrs_view(attrs@), key@) {
            Some(ValueView::Points(p)) => r matches Some(v) && v@.map_values(|q: Vec<Number>| q@) == p,
            _ => r is None,
        },
{
    match get(attrs, key) {
        Some(Value::Points(p)) => Some(crate::value::copy_points(p)),
        _ => None,
    }
}

} // verus!
