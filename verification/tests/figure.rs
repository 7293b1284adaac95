//! Shapes, line styles, caps, labels, and TeX text.

use tnviz::attrs::parse_attrs;
use tnviz::error::Pos;
use tnviz::figure::{
    Cap, LabelText, LineStyle, Shape, leg_cap, line_label, line_style, math_name, tensor_label,
};
use tnviz::lower::parse;
use tnviz::model::Network;
use tnviz::name::Name;
use tnviz::order::{Class, casts_shadow, line_class};
use tnviz::tex::escape;
use tnviz::value::Attr;

fn p(s: &str) -> Vec<Attr> {
    match parse_attrs(s, Pos::default()) {
        Ok(a) => a,
        Err(e) => panic!("{}", e.to_text()),
    }
}

fn net(src: &str) -> Network {
    match parse(src) {
        Ok(n) => n,
        Err(e) => panic!("{}", e.to_text()),
    }
}

#[test]
fn names_are_math() {
    assert_eq!(math_name("A", &[1], 0), "$A_{1}$");
    assert_eq!(math_name("A", &[2], 0), "$A_{2}$");
    assert_eq!(math_name("W", &[], 0), "$W$");
    assert_eq!(math_name("psi_L", &[1, -2], 2), "$psi\\_L_{1,-2}''$");
}

#[test]
fn shapes_by_name() {
    assert_eq!(Shape::from_word("orb"), Some(Shape::Orb));
    assert_eq!(Shape::from_word("octahedron"), Some(Shape::Octahedron));
    assert_eq!(Shape::from_word("circle"), None);
    assert!(Shape::Rect.is_2d() && !Shape::Rect.is_3d());
    assert!(Shape::Box.is_3d() && !Shape::Box.is_2d());
    assert!(Shape::Dot.is_2d() && Shape::Dot.is_3d());
    assert_eq!(Shape::Sphere.section(), Shape::Orb);
    assert_eq!(Shape::Prism.section(), Shape::Triangle);
    assert_eq!(Shape::Diamond.section(), Shape::Diamond);
    assert!(Shape::Sphere.is_round() && Shape::Dot.is_round());
    assert!(!Shape::Box.is_round());
}

#[test]
fn tensor_labels() {
    let name = Name::new("T".to_string(), vec![1, 2]);
    assert_eq!(tensor_label(&[], Shape::Rect, &name), Some(LabelText::Math("$T_{1,2}$".into())));
    assert_eq!(tensor_label(&[], Shape::Dot, &name), None);
    assert_eq!(tensor_label(&p("label=none"), Shape::Rect, &name), None);
    assert_eq!(tensor_label(&p(r#"label="U""#), Shape::Dot, &name), Some(LabelText::Plain("U".into())));
    assert_eq!(tensor_label(&p("label=$U$"), Shape::Rect, &name).map(|l| l.as_str().to_string()), Some("$U$".into()));
}

#[test]
fn line_labels() {
    let n = net("index i[1]' [dim=4]\ntensor A (i[1]')\ntensor B (j)\n");
    let i = n.index(n.open_legs()[0]);
    let j = n.index(n.open_legs()[1]);
    assert_eq!(line_label(&[], i), None);
    assert_eq!(line_label(&p("label=dim"), i), Some(LabelText::Plain("4".into())));
    assert_eq!(line_label(&p("label=name"), i), Some(LabelText::Math("$i_{1}'$".into())));
    assert_eq!(line_label(&p("label=dim+prime"), i), Some(LabelText::Math("$4'$".into())));
    assert_eq!(line_label(&p("label=dim+prime"), j), Some(LabelText::Plain("?".into())));
    assert_eq!(line_label(&p(r#"label="x""#), j), Some(LabelText::Plain("x".into())));
}

#[test]
fn styles_caps_and_classes() {
    assert_eq!(line_style(&p("style=tube")), LineStyle::Tube);
    assert_eq!(line_style(&p("style=line")), LineStyle::Line);
    assert_eq!(line_style(&[]), LineStyle::Line);
    assert_eq!(leg_cap(&p("cap=flat")), Cap::Flat);
    assert_eq!(leg_cap(&[]), Cap::Round);
    assert_eq!(line_class(&p("layer=front")), Class::Front);
    assert_eq!(line_class(&p("layer=back")), Class::Bonds);
    assert!(casts_shadow(&[]));
    assert!(!casts_shadow(&p("shadow=off")));
    assert!(Class::Bonds < Class::Shadows && Class::Tensors < Class::Front);
}

#[test]
fn tex_specials_are_escaped() {
    assert_eq!(escape("50% of a_b & {c}"), "50\\% of a\\_b \\& \\{c\\}");
    assert_eq!(escape("~^\\"), "\\textasciitilde{}\\textasciicircum{}\\textbackslash{}");
    assert_eq!(escape("plain"), "plain");
}
